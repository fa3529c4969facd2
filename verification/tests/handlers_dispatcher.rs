use lol_html::rewritable_units::token_capture_flags::TokenCaptureFlags;
use lol_html::rewriter::handler_vec::{locator_to_idx, HandlerVec, Locator};
use lol_html::rewriter::handlers::{
    Handler, HandlerError, HandlerResult, Interruption, OnceHandler,
};
use lol_html::rewriter::handlers_dispatcher::{ContentHandlersDispatcher, ElementDescriptor};
use lol_html::rewriter::selector_handlers_locator::SelectorHandlersLocator;
use lol_html::rewriter::units::{
    DocumentContentHandlers, Element, ElementContentHandlers, HandlerTypes, StartTag,
    SuspendedToken, Token,
};
use lol_html::selectors_vm::match_info::MatchInfo;

type Unit = Vec<String>;
type TestElement = Element<Unit, EndTagNote>;

/// Appends its name to the unit, and returns what it was told to.
struct Note {
    name: &'static str,
    runs: usize,
    results: Vec<HandlerResult<String>>,
}

impl Note {
    fn outcome(&mut self) -> HandlerResult<String> {
        self.runs += 1;
        if self.results.is_empty() {
            Ok(())
        } else {
            self.results.remove(0)
        }
    }
}

impl Handler<Unit, String> for Note {
    fn handle(&mut self, unit: &mut Unit) -> HandlerResult<String> {
        unit.push(self.name.to_owned());
        self.outcome()
    }
}

/// A note on an element, which may also remove content and ask for the end tag.
struct ElementNote {
    note: Note,
    remove_content: bool,
    on_end_tag: Option<&'static str>,
    end_tag_result: HandlerResult<String>,
}

impl Handler<TestElement, String> for ElementNote {
    fn handle(&mut self, element: &mut TestElement) -> HandlerResult<String> {
        element.start_tag.content.push(self.note.name.to_owned());
        if self.remove_content {
            element.should_remove_content = true;
        }
        if let Some(name) = self.on_end_tag {
            element.end_tag_handler = Some(EndTagNote {
                name,
                result: std::mem::replace(&mut self.end_tag_result, Ok(())),
            });
        }
        self.note.outcome()
    }
}

#[derive(Debug, PartialEq, Eq)]
struct EndTagNote {
    name: &'static str,
    result: HandlerResult<String>,
}

impl OnceHandler<Unit, String> for EndTagNote {
    fn handle_once(self, unit: &mut Unit) -> HandlerResult<String> {
        unit.push(self.name.to_owned());
        self.result
    }
}

struct TestTypes;

impl HandlerTypes for TestTypes {
    type Failure = String;
    type StartTag = Unit;
    type EndTag = Unit;
    type TextChunk = Unit;
    type Comment = Unit;
    type Doctype = Unit;
    type DocumentEnd = Unit;
    type DoctypeHandler = Note;
    type CommentHandler = Note;
    type TextHandler = Note;
    type ElementHandler = ElementNote;
    type EndTagHandler = EndTagNote;
    type EndHandler = EndTagNote;
}

type Dispatcher = ContentHandlersDispatcher<TestTypes>;

fn note(name: &'static str) -> Note {
    Note {
        name,
        runs: 0,
        results: vec![],
    }
}

fn suspending(name: &'static str) -> Note {
    Note {
        name,
        runs: 0,
        results: vec![Err(HandlerError::Suspension)],
    }
}

fn failing(name: &'static str) -> Note {
    Note {
        name,
        runs: 0,
        results: vec![Err(HandlerError::Failure("broken".to_owned()))],
    }
}

fn element(note: Note) -> ElementNote {
    ElementNote {
        note,
        remove_content: false,
        on_end_tag: None,
        end_tag_result: Ok(()),
    }
}

fn no_document_handlers() -> DocumentContentHandlers<TestTypes> {
    DocumentContentHandlers {
        doctype: None,
        comments: None,
        text: None,
        end: None,
    }
}

fn no_element_handlers() -> ElementContentHandlers<TestTypes> {
    ElementContentHandlers {
        element: None,
        comments: None,
        text: None,
    }
}

fn add_text(dispatcher: &mut Dispatcher, handler: Note) {
    dispatcher.add_document_content_handlers(DocumentContentHandlers {
        text: Some(handler),
        ..no_document_handlers()
    });
}

fn add_element(dispatcher: &mut Dispatcher, handler: ElementNote) -> u32 {
    dispatcher.add_selector_associated_handlers(ElementContentHandlers {
        element: Some(handler),
        ..no_element_handlers()
    })
}

fn start(dispatcher: &mut Dispatcher, match_id: u32) {
    dispatcher.start_matching(&MatchInfo {
        match_id,
        with_content: true,
    });
}

fn words(token: Result<Token<TestTypes>, Interruption<Token<TestTypes>, String>>) -> Vec<String> {
    match token {
        Ok(Token::StartTag(tag)) => tag.content,
        Ok(Token::EndTag(unit))
        | Ok(Token::TextChunk(unit))
        | Ok(Token::Comment(unit))
        | Ok(Token::Doctype(unit)) => unit,
        Err(_) => panic!("the token was not handed back"),
    }
}

fn start_tag() -> Token<TestTypes> {
    Token::StartTag(StartTag::new(vec![]))
}

#[test]
fn locator_size() {
    assert!(size_of::<SelectorHandlersLocator>() <= 12);
}

#[test]
fn locators_hold_indexes() {
    let first = Locator::new(0);
    let second = Locator::new(1);
    assert_eq!(first.map(locator_to_idx), Some(0));
    assert_eq!(Locator::new(u32::MAX as usize), None);
    assert_eq!(
        Locator::new(u32::MAX as usize - 1).map(locator_to_idx),
        Some(u32::MAX as usize - 1)
    );
    let locators = SelectorHandlersLocator::new(first, None, second);
    assert_eq!(locators.element_handler_idx(), first);
    assert_eq!(locators.comment_handler_idx(), None);
    assert_eq!(locators.text_handler_idx(), second);
    assert_eq!(
        SelectorHandlersLocator::default(),
        SelectorHandlersLocator::new(None, None, None)
    );
}

#[test]
fn only_active_handlers_run() {
    let mut handlers = HandlerVec::default();
    handlers.push(note("a"), true);
    let b = handlers.push(note("b"), false).unwrap();
    handlers.push(note("c"), true);
    assert!(handlers.has_active());

    let mut unit = vec![];
    let mut next = 0;
    assert_eq!(
        handlers.for_each_active_from(0, &mut next, &mut unit),
        Ok(())
    );
    assert_eq!(unit, ["a", "c"]);
    assert_eq!(next, 3);

    handlers.inc_user_count(b);
    unit.clear();
    assert_eq!(
        handlers.for_each_active_from(1, &mut next, &mut unit),
        Ok(())
    );
    assert_eq!(unit, ["b", "c"]);

    handlers.dec_user_count(b);
    unit.clear();
    assert_eq!(
        handlers.for_each_active_from(0, &mut next, &mut unit),
        Ok(())
    );
    assert_eq!(unit, ["a", "c"]);
}

#[test]
fn locators_of_other_lists_change_nothing() {
    let mut handlers = HandlerVec::default();
    handlers.push(note("a"), false);
    let far = Locator::new(5).unwrap();
    handlers.inc_user_count(far);
    assert!(!handlers.has_active());
    handlers.dec_user_count(far);
    assert!(!handlers.has_active());
}

#[test]
fn stopped_run_goes_on_behind() {
    let mut handlers = HandlerVec::default();
    handlers.push(note("a"), true);
    handlers.push(suspending("b"), true);
    handlers.push(note("c"), true);

    let mut unit = vec![];
    let mut next = 0;
    assert_eq!(
        handlers.for_each_active_from(0, &mut next, &mut unit),
        Err(HandlerError::Suspension)
    );
    assert_eq!(next, 2);
    assert_eq!(
        handlers.for_each_active_from(next, &mut next, &mut unit),
        Ok(())
    );
    assert_eq!(unit, ["a", "b", "c"]);
    assert!(handlers.has_active());
}

#[test]
fn deactivating_run_passes_each_handler_once() {
    let mut handlers = HandlerVec::default();
    handlers.push(note("a"), true);
    handlers.push(suspending("b"), true);
    handlers.push(note("c"), true);

    let mut unit = vec![];
    let mut next = 0;
    assert_eq!(
        handlers.do_for_each_active_and_deactivate_from(0, &mut next, &mut unit),
        Err(HandlerError::Suspension)
    );
    assert!(handlers.has_active());
    assert_eq!(
        handlers.do_for_each_active_and_deactivate_from(next, &mut next, &mut unit),
        Ok(())
    );
    assert!(!handlers.has_active());
    assert_eq!(unit, ["a", "b", "c"]);
    assert_eq!(
        handlers.do_for_each_active_and_deactivate_from(0, &mut next, &mut unit),
        Ok(())
    );
    assert_eq!(unit, ["a", "b", "c"]);
}

#[test]
fn tail_run_takes_handlers_from_the_back() {
    let mut handlers = HandlerVec::default();
    let ok = |name| EndTagNote {
        name,
        result: Ok(()),
    };
    let waiting = handlers.push(ok("waiting"), false).unwrap();
    handlers.push(ok("a"), true);
    handlers.push(ok("inactive"), false);
    handlers.push(
        EndTagNote {
            name: "b",
            result: Err(HandlerError::Suspension),
        },
        true,
    );
    handlers.push(ok("c"), true);

    let mut unit = vec![];
    assert_eq!(
        handlers.do_for_each_active_and_remove_tail(&mut unit),
        Err(HandlerError::Suspension)
    );
    assert_eq!(unit, ["c", "b"]);
    assert!(handlers.has_active());
    assert_eq!(
        handlers.do_for_each_active_and_remove_tail(&mut unit),
        Ok(())
    );
    assert_eq!(unit, ["c", "b", "a"]);
    assert!(!handlers.has_active());

    handlers.inc_user_count(waiting);
    assert_eq!(
        handlers.do_for_each_active_and_remove_tail(&mut unit),
        Ok(())
    );
    assert_eq!(unit, ["c", "b", "a", "waiting"]);
}

#[test]
fn flags_follow_active_handlers() {
    let mut dispatcher = Dispatcher::default();
    assert!(dispatcher.get_token_capture_flags().is_empty());

    dispatcher.add_document_content_handlers(DocumentContentHandlers {
        doctype: Some(note("doctype")),
        ..no_document_handlers()
    });
    assert_eq!(
        dispatcher.get_token_capture_flags().bits(),
        TokenCaptureFlags::DOCTYPES
    );

    let id = dispatcher.add_selector_associated_handlers(ElementContentHandlers {
        element: Some(element(note("element"))),
        comments: Some(note("comment")),
        text: Some(note("text")),
    });
    assert_eq!(
        dispatcher.get_token_capture_flags().bits(),
        TokenCaptureFlags::DOCTYPES
    );

    start(&mut dispatcher, id);
    let flags = dispatcher.get_token_capture_flags();
    assert_eq!(
        flags.bits(),
        TokenCaptureFlags::DOCTYPES
            | TokenCaptureFlags::COMMENTS
            | TokenCaptureFlags::TEXT
            | TokenCaptureFlags::NEXT_START_TAG
    );
    assert!(flags.contains(TokenCaptureFlags::TEXT));
    assert!(!flags.contains(TokenCaptureFlags::NEXT_END_TAG));
    assert!(!flags.contains(TokenCaptureFlags::RAW_TEXT));
}

#[test]
fn match_without_content_wants_no_content() {
    let mut dispatcher = Dispatcher::default();
    let id = dispatcher.add_selector_associated_handlers(ElementContentHandlers {
        element: Some(element(note("element"))),
        comments: Some(note("comment")),
        text: Some(note("text")),
    });
    dispatcher.start_matching(&MatchInfo {
        match_id: id,
        with_content: false,
    });
    assert_eq!(
        dispatcher.get_token_capture_flags().bits(),
        TokenCaptureFlags::NEXT_START_TAG
    );
}

#[test]
fn unknown_matches_change_nothing() {
    let mut dispatcher = Dispatcher::default();
    start(&mut dispatcher, 3);
    assert!(dispatcher.get_token_capture_flags().is_empty());
}

#[test]
fn match_ids_are_counted() {
    let mut dispatcher = Dispatcher::default();
    assert_eq!(
        dispatcher.add_selector_associated_handlers(no_element_handlers()),
        0
    );
    assert_eq!(
        dispatcher.add_selector_associated_handlers(no_element_handlers()),
        1
    );
}

#[test]
fn stop_undoes_start() {
    let mut dispatcher = Dispatcher::default();
    let ids: Vec<u32> = (0..2)
        .map(|_| {
            dispatcher.add_selector_associated_handlers(ElementContentHandlers {
                element: None,
                comments: Some(note("comment")),
                text: Some(note("text")),
            })
        })
        .collect();
    let mut outer = ElementDescriptor::default();
    let mut inner = ElementDescriptor::default();
    for id in &ids {
        start(&mut dispatcher, *id);
        outer.matched_content_handlers.insert(*id);
    }
    start(&mut dispatcher, ids[1]);
    inner.matched_content_handlers.insert(ids[1]);

    let text = |dispatcher: &mut Dispatcher| {
        words(dispatcher.handle_token(Token::TextChunk(vec![]), None)).len()
    };
    assert_eq!(text(&mut dispatcher), 2);
    dispatcher.stop_matching(inner);
    assert_eq!(text(&mut dispatcher), 2);
    dispatcher.stop_matching(outer);
    assert_eq!(text(&mut dispatcher), 0);
    assert!(dispatcher.get_token_capture_flags().is_empty());
}

#[test]
fn every_kind_of_token_has_its_handlers() {
    let mut dispatcher = Dispatcher::default();
    dispatcher.add_document_content_handlers(DocumentContentHandlers {
        doctype: Some(note("doctype")),
        comments: Some(note("comment")),
        text: Some(note("text")),
        end: Some(EndTagNote {
            name: "end",
            result: Ok(()),
        }),
    });
    assert_eq!(
        words(dispatcher.handle_token(Token::Doctype(vec![]), None)),
        ["doctype"]
    );
    assert_eq!(
        words(dispatcher.handle_token(Token::Comment(vec![]), None)),
        ["comment"]
    );
    assert_eq!(
        words(dispatcher.handle_token(Token::TextChunk(vec![]), None)),
        ["text"]
    );
    assert!(words(dispatcher.handle_token(Token::EndTag(vec![]), None)).is_empty());
    assert!(words(dispatcher.handle_token(start_tag(), None)).is_empty());
    assert_eq!(dispatcher.handle_end(vec![]), Ok(vec!["end".to_owned()]));
    // Handlers for the end of the document run once.
    assert_eq!(dispatcher.handle_end(vec![]), Ok(vec![]));
}

#[test]
fn suspended_text_is_resumed_behind_its_handler() {
    let mut dispatcher = Dispatcher::default();
    add_text(&mut dispatcher, note("a"));
    add_text(&mut dispatcher, suspending("b"));
    add_text(&mut dispatcher, suspending("c"));
    add_text(&mut dispatcher, note("d"));

    assert!(dispatcher.suspended_token_mut().is_none());
    assert!(matches!(
        dispatcher.handle_token(Token::TextChunk(vec![]), None),
        Err(Interruption::Suspended)
    ));
    match dispatcher.suspended_token_mut() {
        Some(SuspendedToken::TextChunk {
            chunk,
            next_handler_idx,
        }) => {
            assert_eq!(*next_handler_idx, 2);
            chunk.push("changed".to_owned());
        }
        _ => panic!("the text is not parked"),
    }
    assert!(matches!(
        dispatcher.resume_suspended_token(None),
        Err(Interruption::Suspended)
    ));
    assert_eq!(
        words(dispatcher.resume_suspended_token(None)),
        ["a", "b", "changed", "c", "d"]
    );
    assert!(dispatcher.suspended_token_mut().is_none());
}

#[test]
fn failure_parks_nothing() {
    let mut dispatcher = Dispatcher::default();
    add_text(&mut dispatcher, failing("a"));
    assert!(matches!(
        dispatcher.handle_token(Token::TextChunk(vec![]), None),
        Err(Interruption::Failed { error, unit: Token::TextChunk(text) })
            if error == "broken" && text == ["a"]
    ));
    assert!(dispatcher.suspended_token_mut().is_none());
}

#[test]
fn suspended_comments_and_doctypes_are_resumed() {
    let mut dispatcher = Dispatcher::default();
    dispatcher.add_document_content_handlers(DocumentContentHandlers {
        doctype: Some(suspending("doctype")),
        comments: Some(suspending("comment")),
        ..no_document_handlers()
    });
    assert!(dispatcher
        .handle_token(Token::Doctype(vec![]), None)
        .is_err());
    assert_eq!(words(dispatcher.resume_suspended_token(None)), ["doctype"]);
    assert!(dispatcher
        .handle_token(Token::Comment(vec![]), None)
        .is_err());
    assert_eq!(words(dispatcher.resume_suspended_token(None)), ["comment"]);
}

#[test]
fn element_handlers_run_once_per_match() {
    let mut dispatcher = Dispatcher::default();
    let id = add_element(&mut dispatcher, element(note("a")));
    start(&mut dispatcher, id);
    let mut descriptor = ElementDescriptor::default();
    assert_eq!(
        words(dispatcher.handle_token(start_tag(), Some(&mut descriptor))),
        ["a"]
    );
    assert!(words(dispatcher.handle_token(start_tag(), None)).is_empty());
}

#[test]
fn suspended_element_is_completed() {
    let mut dispatcher = Dispatcher::default();
    let first = add_element(
        &mut dispatcher,
        ElementNote {
            note: suspending("a"),
            remove_content: true,
            on_end_tag: Some("end of a"),
            end_tag_result: Ok(()),
        },
    );
    let second = add_element(&mut dispatcher, element(note("b")));
    start(&mut dispatcher, first);
    start(&mut dispatcher, second);

    let mut descriptor = ElementDescriptor::default();
    assert!(dispatcher
        .handle_token(start_tag(), Some(&mut descriptor))
        .is_err());
    assert!(!descriptor.remove_content);
    assert_eq!(
        words(dispatcher.resume_suspended_token(Some(&mut descriptor))),
        ["a", "b"]
    );
    assert!(descriptor.remove_content);
    assert!(descriptor.end_tag_handler_idx.is_some());
    assert!(dispatcher.has_matched_elements_with_removed_content());

    // Inside, start tags are removed.
    match dispatcher.handle_token(start_tag(), None) {
        Ok(Token::StartTag(tag)) => assert!(tag.removed),
        _ => panic!("no start tag"),
    }

    dispatcher.stop_matching(descriptor);
    assert!(!dispatcher.has_matched_elements_with_removed_content());
    assert!(dispatcher
        .get_token_capture_flags()
        .contains(TokenCaptureFlags::NEXT_END_TAG));
    assert_eq!(
        words(dispatcher.handle_token(Token::EndTag(vec![]), None)),
        ["end of a"]
    );
    assert!(dispatcher.get_token_capture_flags().is_empty());
}

#[test]
fn elements_without_content_are_not_marked() {
    let mut dispatcher = Dispatcher::default();
    let id = add_element(
        &mut dispatcher,
        ElementNote {
            note: note("a"),
            remove_content: true,
            on_end_tag: Some("never"),
            end_tag_result: Ok(()),
        },
    );
    dispatcher.start_matching(&MatchInfo {
        match_id: id,
        with_content: false,
    });
    let mut descriptor = ElementDescriptor::default();
    assert!(dispatcher
        .handle_token(start_tag(), Some(&mut descriptor))
        .is_ok());
    assert!(!descriptor.remove_content);
    assert_eq!(descriptor.end_tag_handler_idx, None);
    assert!(!dispatcher.has_matched_elements_with_removed_content());
}

fn with_end_tag(
    name: &'static str,
    on_end_tag: &'static str,
    end_tag_result: HandlerResult<String>,
) -> ElementNote {
    ElementNote {
        note: note(name),
        remove_content: false,
        on_end_tag: Some(on_end_tag),
        end_tag_result,
    }
}

fn open_and_close(dispatcher: &mut Dispatcher, id: u32) {
    start(dispatcher, id);
    let mut descriptor = ElementDescriptor::default();
    assert!(dispatcher
        .handle_token(start_tag(), Some(&mut descriptor))
        .is_ok());
    dispatcher.stop_matching(descriptor);
}

#[test]
fn end_tag_handlers_run_at_the_end_tag() {
    let mut dispatcher = Dispatcher::default();
    let id = add_element(&mut dispatcher, with_end_tag("a", "outer", Ok(())));
    open_and_close(&mut dispatcher, id);
    assert_eq!(
        words(dispatcher.handle_token(Token::EndTag(vec![]), None)),
        ["outer"]
    );
}

#[test]
fn suspended_end_tag_is_resumed() {
    let mut dispatcher = Dispatcher::default();
    let first = add_element(&mut dispatcher, with_end_tag("a", "first", Ok(())));
    let second = add_element(
        &mut dispatcher,
        with_end_tag("b", "second", Err(HandlerError::Suspension)),
    );
    open_and_close(&mut dispatcher, first);
    open_and_close(&mut dispatcher, second);
    assert!(matches!(
        dispatcher.handle_token(Token::EndTag(vec![]), None),
        Err(Interruption::Suspended)
    ));
    match dispatcher.suspended_token_mut() {
        Some(SuspendedToken::EndTag(unit)) => assert_eq!(**unit, ["second"]),
        _ => panic!("the end tag is not parked"),
    }
    assert_eq!(
        words(dispatcher.resume_suspended_token(None)),
        ["second", "first"]
    );
    assert!(dispatcher.get_token_capture_flags().is_empty());
}

fn address(dispatcher: &mut Dispatcher) -> String {
    match dispatcher.suspended_token_mut() {
        Some(SuspendedToken::TextChunk { chunk, .. }) => format!("{:p}", &**chunk),
        _ => panic!("the text is not parked"),
    }
}

#[test]
fn parked_unit_keeps_its_address() {
    let mut dispatcher = Dispatcher::default();
    add_text(&mut dispatcher, suspending("a"));
    add_text(&mut dispatcher, suspending("b"));
    assert!(dispatcher
        .handle_token(Token::TextChunk(vec![]), None)
        .is_err());
    let first = address(&mut dispatcher);
    assert!(dispatcher.resume_suspended_token(None).is_err());
    assert_eq!(address(&mut dispatcher), first);
}

#[test]
fn suspended_end_of_the_document_is_resumed() {
    let mut dispatcher = Dispatcher::default();
    for (name, result) in [
        ("first", Ok(())),
        ("second", Err(HandlerError::Suspension)),
        ("third", Ok(())),
    ] {
        dispatcher.add_document_content_handlers(DocumentContentHandlers {
            end: Some(EndTagNote { name, result }),
            ..no_document_handlers()
        });
    }
    assert_eq!(
        dispatcher.handle_end(vec![]),
        Err(Interruption::Suspended)
    );
    assert!(matches!(
        dispatcher.suspended_token_mut(),
        Some(SuspendedToken::DocumentEnd(_))
    ));
    assert_eq!(
        dispatcher.resume_suspended_document_end(),
        Ok(vec![
            "third".to_owned(),
            "second".to_owned(),
            "first".to_owned()
        ])
    );
}

#[test]
fn flags_are_bits() {
    let mut flags = TokenCaptureFlags::empty();
    flags.insert(TokenCaptureFlags::TEXT);
    flags.insert(TokenCaptureFlags::RAW_TEXT);
    assert_eq!(flags.bits(), 0b0010_0001);
    assert!(flags.contains(TokenCaptureFlags::TEXT | TokenCaptureFlags::RAW_TEXT));
    assert!(!flags.contains(TokenCaptureFlags::TEXT | TokenCaptureFlags::COMMENTS));
    assert!(HandlerError::<String>::Suspension.is_suspension_request());
    assert!(!HandlerError::Failure(0).is_suspension_request());
}

#[test]
fn start_tags_are_handed_back_with_their_handlers_run() {
    let mut dispatcher = Dispatcher::default();
    let id = add_element(&mut dispatcher, element(note("a")));
    start(&mut dispatcher, id);
    let tag = dispatcher.handle_start_tag(StartTag::new(vec!["p".to_owned()]), None);
    assert_eq!(
        tag,
        Ok(StartTag {
            content: vec!["p".to_owned(), "a".to_owned()],
            removed: false,
        })
    );
}

#[test]
fn lowering_undoes_raising() {
    let mut handlers = HandlerVec::default();
    let a = handlers.push(note("a"), false).unwrap();
    for _ in 0..3 {
        handlers.inc_user_count(a);
    }
    for _ in 0..3 {
        assert!(handlers.has_active());
        handlers.dec_user_count(a);
    }
    assert!(!handlers.has_active());
}

#[test]
fn suspended_handlers_run_as_if_they_were_not() {
    let handlers = |suspended: bool| {
        let mut dispatcher = Dispatcher::default();
        for name in ["a", "b", "c"] {
            let handler = if suspended { suspending(name) } else { note(name) };
            add_text(&mut dispatcher, handler);
            dispatcher.add_document_content_handlers(DocumentContentHandlers {
                end: Some(EndTagNote {
                    name,
                    result: if suspended {
                        Err(HandlerError::Suspension)
                    } else {
                        Ok(())
                    },
                }),
                ..no_document_handlers()
            });
        }
        dispatcher
    };
    let mut straight = handlers(false);
    let mut paused = handlers(true);

    let text = words(straight.handle_token(Token::TextChunk(vec![]), None));
    let mut res = paused.handle_token(Token::TextChunk(vec![]), None);
    for _ in 0..3 {
        assert!(matches!(res, Err(Interruption::Suspended)));
        res = paused.resume_suspended_token(None);
    }
    assert_eq!(words(res), text);

    let end = straight.handle_end(vec![]);
    let mut res = paused.handle_end(vec![]);
    for _ in 0..3 {
        assert_eq!(res, Err(Interruption::Suspended));
        res = paused.resume_suspended_document_end();
    }
    assert_eq!(res, end);
    assert_eq!(end, Ok(vec!["c".to_owned(), "b".to_owned(), "a".to_owned()]));
    assert_eq!(paused.handle_end(vec![]), Ok(vec![]));
    assert_eq!(straight.handle_end(vec![]), Ok(vec![]));
}
