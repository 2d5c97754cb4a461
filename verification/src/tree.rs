//! A push-based assembler of value trees.
//!
//! A decoder reports what it reads as a stream of events: scalars, keys, and
//! the begin and end of arrays and objects. The builder takes the events one
//! by one and hands out the finished tree, or the reason why the events were
//! not those of a JSON document. On failure nothing is handed out: no tree
//! is ever built in part.

use crate::bytestring::{bytes_content, slice_text, ByteString, InvalidSlice};
use crate::map::{inserted, lemma_key_index_none, unique_keys, OrderedMap};
use crate::number::{float_is_finite, Number};
use crate::value::{views, Json, Value};
use bytes::Bytes;
use vstd::prelude::*;

verus! {

/// One report of a decoder.
#[derive(Debug)]
pub enum Event {
    Null,
    Bool(bool),
    Unsigned(u64),
    Signed(i64),
    /// A float, by its binary64 bit pattern.
    Float(u64),
    /// A string that the decoder holds in a buffer of its own.
    Text(String),
    /// A string that the decoder found at these bytes of the input.
    Span(usize, usize),
    /// An object key that the decoder holds in a buffer of its own.
    Key(String),
    /// An object key that the decoder found at these bytes of the input.
    KeySpan(usize, usize),
    BeginArray,
    EndArray,
    BeginObject,
    EndObject,
}

/// Why a stream of events is not that of a JSON document.
#[derive(Clone, Copy, Debug, PartialEq, Eq)]
pub enum MalformedInput {
    /// A span does not lie within the input, or holds no valid UTF-8.
    InvalidSlice(InvalidSlice),
    /// A key came where no key can stand.
    UnexpectedKey,
    /// A value came inside an object without a key before it.
    MissingKey,
    /// An array or object ended that had not begun, or an object ended after
    /// a key without a value.
    UnexpectedEnd,
    /// A value came after the document was complete.
    TrailingValue,
    /// The events stopped before the document was complete.
    Unfinished,
}

/// What an event says, apart from how its text is held.
pub enum Token {
    /// A null, a boolean, a number or a string.
    Scalar(Json),
    Key(Seq<char>),
    BeginArray,
    EndArray,
    BeginObject,
    EndObject,
}

/// An array or object that has begun and not yet ended.
pub enum Open {
    /// An array, with the elements it has so far.
    Array(Seq<Json>),
    /// An object, with the entries it has so far and the key that waits for
    /// its value.
    Object(Seq<(Seq<char>, Json)>, Option<Seq<char>>),
}

/// The state of an assembly: the arrays and objects that are open, outermost
/// first, the finished document, and the failure, once there is one.
pub struct Assembly {
    pub open: Seq<Open>,
    pub done: Option<Json>,
    pub failure: Option<MalformedInput>,
}

/// The state before any event.
pub open spec fn start() -> Assembly {
    Assembly { open: Seq::empty(), done: None, failure: None }
}

/// The state after a failure: all that was built is dropped.
pub open spec fn failed(e: MalformedInput) -> Assembly {
    Assembly { open: Seq::empty(), done: None, failure: Some(e) }
}

/// The token of an event read from an input with the given content.
pub open spec fn token_of(content: Seq<u8>, event: Event) -> Result<Token, MalformedInput> {
    match event {
        Event::Null => Ok(Token::Scalar(Json::Null)),
        Event::Bool(b) => Ok(Token::Scalar(Json::Bool(b))),
        Event::Unsigned(u) => Ok(Token::Scalar(Json::Number(Number::PosInt(u)))),
        Event::Signed(i) => Ok(
            Token::Scalar(
                Json::Number(
                    if i < 0 {
                        Number::NegInt(i)
                    } else {
                        Number::PosInt(i as u64)
                    },
                ),
            ),
        ),
        Event::Float(bits) => Ok(
            Token::Scalar(
                if float_is_finite(bits) {
                    Json::Number(Number::Float(bits))
                } else {
                    Json::Null
                },
            ),
        ),
        Event::Text(s) => Ok(Token::Scalar(Json::String(s@))),
        Event::Span(start, end) => match slice_text(content, start as int, end as int) {
            Ok(text) => Ok(Token::Scalar(Json::String(text))),
            Err(e) => Err(MalformedInput::InvalidSlice(e)),
        },
        Event::Key(s) => Ok(Token::Key(s@)),
        Event::KeySpan(start, end) => match slice_text(content, start as int, end as int) {
            Ok(text) => Ok(Token::Key(text)),
            Err(e) => Err(MalformedInput::InvalidSlice(e)),
        },
        Event::BeginArray => Ok(Token::BeginArray),
        Event::EndArray => Ok(Token::EndArray),
        Event::BeginObject => Ok(Token::BeginObject),
        Event::EndObject => Ok(Token::EndObject),
    }
}

/// Whether a value can come next: at the very start, inside an array, or
/// after a key.
pub open spec fn accepts_value(a: Assembly) -> bool {
    if a.open.len() == 0 {
        a.done is None
    } else {
        match a.open.last() {
            Open::Array(_) => true,
            Open::Object(_, pending) => pending is Some,
        }
    }
}

/// Why no value can come next.
pub open spec fn refusal(a: Assembly) -> MalformedInput {
    if a.open.len() == 0 {
        MalformedInput::TrailingValue
    } else {
        MalformedInput::MissingKey
    }
}

/// The innermost open array or object.
pub open spec fn innermost(a: Assembly) -> Option<Open> {
    if a.open.len() > 0 {
        Some(a.open.last())
    } else {
        None
    }
}

/// The state without the innermost open array or object.
pub open spec fn closed(a: Assembly) -> Assembly {
    Assembly { open: a.open.drop_last(), done: a.done, failure: a.failure }
}

/// The state with one more open array or object.
pub open spec fn opened(a: Assembly, innermost: Open) -> Assembly {
    Assembly { open: a.open.push(innermost), done: a.done, failure: a.failure }
}

/// The state with the innermost open array or object replaced.
pub open spec fn with_innermost(a: Assembly, innermost: Open) -> Assembly {
    Assembly { open: a.open.drop_last().push(innermost), done: a.done, failure: a.failure }
}

/// The state after a complete value has come: the value is the document,
/// the next element of the innermost array, or the value of the key that
/// waited for one.
pub open spec fn place(a: Assembly, v: Json) -> Assembly {
    if !accepts_value(a) {
        failed(refusal(a))
    } else if a.open.len() == 0 {
        Assembly { open: a.open, done: Some(v), failure: a.failure }
    } else {
        match a.open.last() {
            Open::Array(items) => with_innermost(a, Open::Array(items.push(v))),
            Open::Object(entries, pending) => with_innermost(
                a,
                Open::Object(inserted(entries, pending->Some_0, v), None),
            ),
        }
    }
}

/// The state after one more token. After a failure no token changes
/// anything.
pub open spec fn step(a: Assembly, token: Token) -> Assembly {
    if a.failure is Some {
        a
    } else {
        match token {
            Token::Scalar(v) => place(a, v),
            Token::Key(k) => match innermost(a) {
                Some(Open::Object(entries, None)) => with_innermost(
                    a,
                    Open::Object(entries, Some(k)),
                ),
                _ => failed(MalformedInput::UnexpectedKey),
            },
            Token::BeginArray => if accepts_value(a) {
                opened(a, Open::Array(Seq::empty()))
            } else {
                failed(refusal(a))
            },
            Token::BeginObject => if accepts_value(a) {
                opened(a, Open::Object(Seq::empty(), None))
            } else {
                failed(refusal(a))
            },
            Token::EndArray => match innermost(a) {
                Some(Open::Array(items)) => place(closed(a), Json::Array(items)),
                _ => failed(MalformedInput::UnexpectedEnd),
            },
            Token::EndObject => match innermost(a) {
                Some(Open::Object(entries, None)) => place(closed(a), Json::Object(entries)),
                _ => failed(MalformedInput::UnexpectedEnd),
            },
        }
    }
}

/// The state after an event, which is a token or a span that holds no text.
pub open spec fn advance(a: Assembly, event: Result<Token, MalformedInput>) -> Assembly {
    match event {
        Ok(token) => step(a, token),
        Err(e) => if a.failure is Some {
            a
        } else {
            failed(e)
        },
    }
}

/// What the assembly hands out when the events are over: the document, if
/// exactly one has been completed, and else the failure.
pub open spec fn outcome(a: Assembly) -> Result<Json, MalformedInput> {
    match a.failure {
        Some(e) => Err(e),
        None => if a.open.len() == 0 && a.done is Some {
            Ok(a.done->Some_0)
        } else {
            Err(MalformedInput::Unfinished)
        },
    }
}

/// The events of a document, in the order in which a decoder reports them.
pub open spec fn tokens_of(document: Json) -> Seq<Token>
    decreases document, 1nat, 0nat,
{
    match document {
        Json::Array(items) => seq![Token::BeginArray] + element_tokens(document, items.len())
            + seq![Token::EndArray],
        Json::Object(entries) => seq![Token::BeginObject] + entry_tokens(document, entries.len())
            + seq![Token::EndObject],
        _ => seq![Token::Scalar(document)],
    }
}

/// The events of the first `n` elements of an array.
pub open spec fn element_tokens(array: Json, n: nat) -> Seq<Token>
    decreases array, 0nat, n,
{
    match array {
        Json::Array(items) => if n == 0 || n > items.len() {
            Seq::empty()
        } else {
            element_tokens(array, (n - 1) as nat) + tokens_of(items[n - 1])
        },
        _ => Seq::empty(),
    }
}

/// The events of the first `n` entries of an object: for each entry its key
/// and then the events of its value.
pub open spec fn entry_tokens(object: Json, n: nat) -> Seq<Token>
    decreases object, 0nat, n,
{
    match object {
        Json::Object(entries) => if n == 0 || n > entries.len() {
            Seq::empty()
        } else {
            entry_tokens(object, (n - 1) as nat) + seq![Token::Key(entries[n - 1].0)] + tokens_of(
                entries[n - 1].1,
            )
        },
        _ => Seq::empty(),
    }
}

/// Whether no object of the document, at any depth, has a key twice.
pub open spec fn well_keyed(document: Json) -> bool
    decreases document,
{
    match document {
        Json::Array(items) => forall|i: int| 0 <= i < items.len() ==> well_keyed(#[trigger] items[i]),
        Json::Object(entries) => unique_keys(entries) && forall|i: int|
            0 <= i < entries.len() ==> well_keyed((#[trigger] entries[i]).1),
        _ => true,
    }
}

/// The state after the tokens, taken one by one.
pub open spec fn run(a: Assembly, tokens: Seq<Token>) -> Assembly
    decreases tokens.len(),
{
    if tokens.len() == 0 {
        a
    } else {
        step(run(a, tokens.drop_last()), tokens.last())
    }
}

/// Taking two streams of tokens one after the other is taking their
/// concatenation.
pub proof fn lemma_run_concat(a: Assembly, first: Seq<Token>, second: Seq<Token>)
    ensures
        run(a, first + second) == run(run(a, first), second),
    decreases second.len(),
{
    if second.len() == 0 {
        assert(first + second =~= first);
    } else {
        lemma_run_concat(a, first, second.drop_last());
        assert((first + second).drop_last() =~= first + second.drop_last());
        assert((first + second).last() == second.last());
    }
}

proof fn lemma_run_one(a: Assembly, token: Token)
    ensures
        run(a, seq![token]) == step(a, token),
{
    assert(seq![token].drop_last() =~= Seq::<Token>::empty());
    assert(run(a, Seq::<Token>::empty()) == a);
}

/// The events of a document put the document where the next value belongs:
/// at the top, into the innermost array, or under the key that waits.
pub proof fn lemma_tokens_place_the_document(a: Assembly, document: Json)
    requires
        a.failure is None,
        accepts_value(a),
        well_keyed(document),
    ensures
        run(a, tokens_of(document)) == place(a, document),
    decreases document, 1nat, 0nat,
{
    match document {
        Json::Array(items) => {
            let inside = opened(a, Open::Array(Seq::empty()));
            let body = element_tokens(document, items.len());
            lemma_elements(a, document, items.len());
            assert(tokens_of(document) == seq![Token::BeginArray] + body + seq![Token::EndArray]);
            lemma_run_concat(a, seq![Token::BeginArray] + body, seq![Token::EndArray]);
            lemma_run_concat(a, seq![Token::BeginArray], body);
            lemma_run_one(a, Token::BeginArray);
            let filled = run(inside, body);
            lemma_run_one(filled, Token::EndArray);
            assert(items.subrange(0, items.len() as int) =~= items);
            assert(closed(filled).open =~= a.open);
        },
        Json::Object(entries) => {
            let inside = opened(a, Open::Object(Seq::empty(), None));
            let body = entry_tokens(document, entries.len());
            lemma_entries(a, document, entries.len());
            assert(tokens_of(document) == seq![Token::BeginObject] + body + seq![Token::EndObject]);
            lemma_run_concat(a, seq![Token::BeginObject] + body, seq![Token::EndObject]);
            lemma_run_concat(a, seq![Token::BeginObject], body);
            lemma_run_one(a, Token::BeginObject);
            let filled = run(inside, body);
            lemma_run_one(filled, Token::EndObject);
            assert(entries.subrange(0, entries.len() as int) =~= entries);
            assert(closed(filled).open =~= a.open);
        },
        _ => {
            assert(tokens_of(document) == seq![Token::Scalar(document)]);
            lemma_run_one(a, Token::Scalar(document));
        },
    }
}

proof fn lemma_elements(a: Assembly, array: Json, n: nat)
    requires
        a.failure is None,
        accepts_value(a),
        well_keyed(array),
        array is Array,
        n <= array->Array_0.len(),
    ensures
        run(opened(a, Open::Array(Seq::empty())), element_tokens(array, n)) == opened(
            a,
            Open::Array(array->Array_0.subrange(0, n as int)),
        ),
    decreases array, 0nat, n,
{
    let items = array->Array_0;
    let inside = opened(a, Open::Array(Seq::empty()));
    if n == 0 {
        assert(element_tokens(array, n) == Seq::<Token>::empty());
        assert(items.subrange(0, 0) =~= Seq::<Json>::empty());
    } else {
        let head = element_tokens(array, (n - 1) as nat);
        let item = items[n - 1];
        lemma_elements(a, array, (n - 1) as nat);
        let before = opened(a, Open::Array(items.subrange(0, n - 1)));
        assert(element_tokens(array, n) == head + tokens_of(item));
        lemma_run_concat(inside, head, tokens_of(item));
        lemma_tokens_place_the_document(before, item);
        assert(items.subrange(0, n - 1).push(item) =~= items.subrange(0, n as int));
        assert(before.open.drop_last() =~= a.open);
    }
}

proof fn lemma_entries(a: Assembly, object: Json, n: nat)
    requires
        a.failure is None,
        accepts_value(a),
        well_keyed(object),
        object is Object,
        n <= object->Object_0.len(),
    ensures
        run(opened(a, Open::Object(Seq::empty(), None)), entry_tokens(object, n)) == opened(
            a,
            Open::Object(object->Object_0.subrange(0, n as int), None),
        ),
    decreases object, 0nat, n,
{
    let entries = object->Object_0;
    let inside = opened(a, Open::Object(Seq::empty(), None));
    if n == 0 {
        assert(entry_tokens(object, n) == Seq::<Token>::empty());
        assert(entries.subrange(0, 0) =~= Seq::<(Seq<char>, Json)>::empty());
    } else {
        let head = entry_tokens(object, (n - 1) as nat);
        let entry = entries[n - 1];
        let so_far = entries.subrange(0, n - 1);
        lemma_entries(a, object, (n - 1) as nat);
        let before = opened(a, Open::Object(so_far, None));
        let keyed = opened(a, Open::Object(so_far, Some(entry.0)));
        assert(entry_tokens(object, n) == head + seq![Token::Key(entry.0)] + tokens_of(entry.1));
        lemma_run_concat(inside, head + seq![Token::Key(entry.0)], tokens_of(entry.1));
        lemma_run_concat(inside, head, seq![Token::Key(entry.0)]);
        lemma_run_one(before, Token::Key(entry.0));
        assert(before.open.drop_last() =~= a.open);
        assert(step(before, Token::Key(entry.0)) == keyed);
        lemma_tokens_place_the_document(keyed, entry.1);
        assert forall|j: int| 0 <= j < so_far.len() implies so_far[j].0 != entry.0 by {
            assert(so_far[j] == entries[j]);
        }
        lemma_key_index_none(so_far, entry.0);
        assert(so_far.push(entry) =~= entries.subrange(0, n as int));
        assert(keyed.open.drop_last() =~= a.open);
    }
}

/// A builder that is given the events of a document whose objects have no
/// key twice hands out that document.
pub proof fn lemma_events_rebuild_the_document(document: Json)
    requires
        well_keyed(document),
    ensures
        outcome(run(start(), tokens_of(document))) == Ok::<Json, MalformedInput>(document),
{
    lemma_tokens_place_the_document(start(), document);
}


/// An array or object under construction.
#[derive(Debug)]
enum Frame {
    Array(Vec<Value>),
    Object(OrderedMap, Option<ByteString>),
}

impl View for Frame {
    type V = Open;

    closed spec fn view(&self) -> Open {
        match self {
            Frame::Array(items) => Open::Array(views(items@)),
            Frame::Object(entries, pending) => Open::Object(
                entries@,
                match pending {
                    Some(k) => Some(k@),
                    None => None,
                },
            ),
        }
    }
}

/// The views of the frames, outermost first.
spec fn frames(stack: Seq<Frame>) -> Seq<Open> {
    Seq::new(stack.len(), |i: int| stack[i]@)
}

/// Assembles a value tree from the events of a decoder. Strings that the
/// decoder reports as spans of the input become views of the buffer.
#[derive(Debug)]
pub struct TreeBuilder<'data> {
    bytes: &'data Bytes,
    stack: Vec<Frame>,
    done: Option<Value>,
    failure: Option<MalformedInput>,
}

impl<'data> View for TreeBuilder<'data> {
    type V = Assembly;

    closed spec fn view(&self) -> Assembly {
        Assembly {
            open: frames(self.stack@),
            done: match self.done {
                Some(v) => Some(v@),
                None => None,
            },
            failure: self.failure,
        }
    }
}

impl<'data> TreeBuilder<'data> {
    /// The content of the input that the spans of the events refer to.
    pub closed spec fn content(&self) -> Seq<u8> {
        bytes_content(*self.bytes)
    }

    /// A builder for a document decoded from `bytes`.
    pub fn new(bytes: &'data Bytes) -> (builder: Self)
        ensures
            builder@ == start(),
            builder.content() == bytes_content(*bytes),
    {
        let builder = TreeBuilder { bytes, stack: Vec::new(), done: None, failure: None };
        assert(frames(builder.stack@) =~= Seq::<Open>::empty());
        builder
    }

    /// Drops all that was built and records the failure.
    fn fail(&mut self, e: MalformedInput)
        ensures
            final(self)@ == failed(e),
            final(self).content() == old(self).content(),
    {
        self.stack = Vec::new();
        self.done = None;
        self.failure = Some(e);
        assert(frames(self.stack@) =~= Seq::<Open>::empty());
    }

    /// Puts a complete value where the next value belongs.
    fn place(&mut self, v: Value)
        requires
            old(self)@.failure is None,
        ensures
            final(self)@ == place(old(self)@, v@),
            final(self).content() == old(self).content(),
    {
        let ghost before = self.stack@;
        match self.stack.pop() {
            None => {
                assert(frames(before) =~= Seq::<Open>::empty());
                if self.done.is_none() {
                    self.done = Some(v);
                } else {
                    self.fail(MalformedInput::TrailingValue);
                }
            },
            Some(frame) => {
                assert(frames(before).last() == frame@);
                assert(frames(self.stack@) =~= frames(before).drop_last());
                match frame {
                    Frame::Array(items) => {
                        let mut items = items;
                        let ghost so_far = items@;
                        items.push(v);
                        assert(views(items@) =~= views(so_far).push(v@));
                        let ghost rest = self.stack@;
                        self.stack.push(Frame::Array(items));
                        assert(frames(self.stack@) =~= frames(rest).push(
                            Open::Array(views(items@)),
                        ));
                    },
                    Frame::Object(entries, Some(key)) => {
                        let mut entries = entries;
                        entries.insert(key, v);
                        let ghost rest = self.stack@;
                        self.stack.push(Frame::Object(entries, None));
                        assert(frames(self.stack@) =~= frames(rest).push(
                            Open::Object(entries@, None),
                        ));
                    },
                    Frame::Object(_, None) => {
                        self.fail(MalformedInput::MissingKey);
                    },
                }
            },
        }
    }

    /// Records the key whose value comes next.
    fn key(&mut self, key: ByteString)
        requires
            old(self)@.failure is None,
        ensures
            final(self)@ == step(old(self)@, Token::Key(key@)),
            final(self).content() == old(self).content(),
    {
        let ghost before = self.stack@;
        match self.stack.pop() {
            Some(Frame::Object(entries, None)) => {
                assert(frames(before).last() == Frame::Object(entries, None)@);
                assert(frames(self.stack@) =~= frames(before).drop_last());
                let ghost rest = self.stack@;
                self.stack.push(Frame::Object(entries, Some(key)));
                assert(frames(self.stack@) =~= frames(rest).push(
                    Open::Object(entries@, Some(key@)),
                ));
            },
            Some(other) => {
                assert(frames(before).last() == other@);
                self.fail(MalformedInput::UnexpectedKey);
            },
            None => {
                assert(frames(before) =~= Seq::<Open>::empty());
                self.fail(MalformedInput::UnexpectedKey);
            },
        }
    }

    /// Whether a value can come next.
    fn ready(&self) -> (r: bool)
        ensures
            r == accepts_value(self@),
    {
        let depth = self.stack.len();
        if depth == 0 {
            assert(frames(self.stack@) =~= Seq::<Open>::empty());
            self.done.is_none()
        } else {
            assert(frames(self.stack@).last() == self.stack@[depth - 1]@);
            match &self.stack[depth - 1] {
                Frame::Array(_) => true,
                Frame::Object(_, pending) => pending.is_some(),
            }
        }
    }

    /// Opens an array or object where the next value belongs.
    fn begin(&mut self, frame: Frame)
        requires
            old(self)@.failure is None,
            frame@ == Open::Array(Seq::empty()) || frame@ == Open::Object(Seq::empty(), None),
        ensures
            final(self)@ == step(
                old(self)@,
                if frame@ is Array {
                    Token::BeginArray
                } else {
                    Token::BeginObject
                },
            ),
            final(self).content() == old(self).content(),
    {
        if self.ready() {
            let ghost rest = self.stack@;
            self.stack.push(frame);
            assert(frames(self.stack@) =~= frames(rest).push(frame@));
        } else if self.stack.len() == 0 {
            assert(frames(self.stack@) =~= Seq::<Open>::empty());
            self.fail(MalformedInput::TrailingValue);
        } else {
            self.fail(MalformedInput::MissingKey);
        }
    }

    /// Closes the innermost array or object, which must be of the kind that
    /// the event names, and puts it where it belongs.
    fn end(&mut self, array: bool)
        requires
            old(self)@.failure is None,
        ensures
            final(self)@ == step(
                old(self)@,
                if array {
                    Token::EndArray
                } else {
                    Token::EndObject
                },
            ),
            final(self).content() == old(self).content(),
    {
        let ghost before = self.stack@;
        match self.stack.pop() {
            Some(Frame::Array(items)) => {
                assert(frames(before).last() == Frame::Array(items)@);
                assert(frames(self.stack@) =~= frames(before).drop_last());
                if array {
                    proof {
                        Value::lemma_array_view(items);
                    }
                    self.place(Value::Array(items));
                } else {
                    self.fail(MalformedInput::UnexpectedEnd);
                }
            },
            Some(Frame::Object(entries, pending)) => {
                assert(frames(before).last() == Frame::Object(entries, pending)@);
                assert(frames(self.stack@) =~= frames(before).drop_last());
                if !array && pending.is_none() {
                    self.place(Value::Object(entries));
                } else {
                    self.fail(MalformedInput::UnexpectedEnd);
                }
            },
            None => {
                assert(frames(before) =~= Seq::<Open>::empty());
                self.fail(MalformedInput::UnexpectedEnd);
            },
        }
    }

    /// Takes the next event. Once an event has been refused, every later one
    /// is refused for the same reason.
    pub fn push(&mut self, event: Event) -> (r: Result<(), MalformedInput>)
        ensures
            final(self)@ == advance(old(self)@, token_of(old(self).content(), event)),
            final(self).content() == old(self).content(),
            r == match final(self)@.failure {
                Some(e) => Err::<(), _>(e),
                None => Ok(()),
            },
    {
        if let Some(e) = self.failure {
            return Err(e);
        }
        match event {
            Event::Null => self.place(Value::Null),
            Event::Bool(b) => self.place(Value::Bool(b)),
            Event::Unsigned(u) => self.place(Value::Number(Number::from_u64(u))),
            Event::Signed(i) => self.place(Value::Number(Number::from_i64(i))),
            Event::Float(bits) => match Number::from_float_bits(bits) {
                Some(n) => self.place(Value::Number(n)),
                None => self.place(Value::Null),
            },
            Event::Text(s) => self.place(Value::String(ByteString::from_string(s))),
            Event::Span(start, end) => match ByteString::new(self.bytes, start, end) {
                Ok(s) => self.place(Value::String(s)),
                Err(e) => self.fail(MalformedInput::InvalidSlice(e)),
            },
            Event::Key(s) => self.key(ByteString::from_string(s)),
            Event::KeySpan(start, end) => match ByteString::new(self.bytes, start, end) {
                Ok(s) => self.key(s),
                Err(e) => self.fail(MalformedInput::InvalidSlice(e)),
            },
            Event::BeginArray => {
                let items: Vec<Value> = Vec::new();
                assert(views(items@) =~= Seq::<Json>::empty());
                self.begin(Frame::Array(items))
            },
            Event::EndArray => self.end(true),
            Event::BeginObject => self.begin(Frame::Object(OrderedMap::new(), None)),
            Event::EndObject => self.end(false),
        }
        match self.failure {
            Some(e) => Err(e),
            None => Ok(()),
        }
    }

    /// Hands out the document when the events were those of exactly one, and
    /// else the reason why they were not.
    pub fn finish(self) -> (r: Result<Value, MalformedInput>)
        ensures
            match outcome(self@) {
                Ok(document) => r is Ok && r->Ok_0@ == document,
                Err(e) => r == Err::<Value, _>(e),
            },
    {
        if let Some(e) = self.failure {
            return Err(e);
        }
        if self.stack.len() > 0 {
            return Err(MalformedInput::Unfinished);
        }
        assert(frames(self.stack@) =~= Seq::<Open>::empty());
        match self.done {
            Some(v) => Ok(v),
            None => Err(MalformedInput::Unfinished),
        }
    }
}

} // verus!
