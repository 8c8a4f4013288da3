//! How an agent gets hold of an input of a task: from its own store, or from one replica after
//! another until one gives what can be verified.

use vstd::prelude::*;
use vstd::string::*;

use crate::protocol::{ReplicaModel, ResolvedModel, ResolvedObject};
use crate::store::{check_digest, digest_of};
use crate::text::{concat2, concat3, concat4, concat5, decimal_text, same_text};
use crate::transfer::{part_of, range_header};

verus! {

/// A part of an object: the bytes from `offset` to before `end`.
#[derive(Clone, Copy, Debug, PartialEq, Eq, Structural)]
pub struct Span {
    pub offset: u64,
    pub end: u64,
}

/// What of an object a task wants.
#[derive(Clone, Copy, Debug, PartialEq, Eq, Structural)]
pub enum Wanted {
    All,
    Nothing,
    Part(Span),
}

/// What is wanted of an object of a given size, by an offset and a length.
pub open spec fn wanted(size: u64, range: Option<(u64, u64)>) -> Result<Wanted, Seq<char>> {
    match range {
        None => Ok(Wanted::All),
        Some((offset, length)) => if offset == 0 && length == size {
            Ok(Wanted::All)
        } else if offset + length > u64::MAX {
            Err("input byte range overflows"@)
        } else if offset + length > size {
            Err(
                "input byte range "@ + crate::text::decimal(offset as nat) + ".."@
                    + crate::text::decimal((offset + length) as nat) + (" exceeds object size "@
                    + crate::text::decimal(size as nat)),
            )
        } else if length == 0 {
            Ok(Wanted::Nothing)
        } else {
            Ok(Wanted::Part(Span { offset, end: (offset + length) as u64 }))
        },
    }
}

pub fn want(size: u64, range: Option<(u64, u64)>) -> (r: Result<Wanted, String>)
    ensures
        match r {
            Ok(what) => wanted(size, range) == Ok::<Wanted, Seq<char>>(what),
            Err(message) => wanted(size, range) == Err::<Wanted, Seq<char>>(message@),
        },
{
    match range {
        None => Ok(Wanted::All),
        Some((offset, length)) => {
            if offset == 0 && length == size {
                return Ok(Wanted::All);
            }
            if offset > u64::MAX - length {
                return Err("input byte range overflows".to_owned());
            }
            let end: u64 = offset + length;
            if end > size {
                let asked = concat4(
                    "input byte range ",
                    decimal_text(offset).as_str(),
                    "..",
                    decimal_text(end).as_str(),
                );
                let there = concat2(" exceeds object size ", decimal_text(size).as_str());
                return Err(concat2(asked.as_str(), there.as_str()));
            }
            if length == 0 {
                return Ok(Wanted::Nothing);
            }
            Ok(Wanted::Part(Span { offset, end }))
        },
    }
}

/// What is to be done next to get an input.
#[derive(Debug, PartialEq)]
pub enum FetchStep {
    /// See whether the store has the object, and read it if it does.
    Look,
    /// Ask a replica, for all of the object or for the range that the header names.
    Ask { url: String, range: Option<String> },
    /// Put what a replica gave into the store.
    Keep,
    /// Tell the coordinator that the object is here too.
    Announce,
    Finished(Result<Vec<u8>, String>),
}

pub enum FetchStepModel {
    Look,
    Ask { url: Seq<char>, range: Option<Seq<char>> },
    Keep,
    Announce,
    Finished(Result<Seq<u8>, Seq<char>>),
}

impl View for FetchStep {
    type V = FetchStepModel;

    open spec fn view(&self) -> FetchStepModel {
        match self {
            FetchStep::Look => FetchStepModel::Look,
            FetchStep::Ask { url, range } => FetchStepModel::Ask {
                url: url@,
                range: crate::text::view_of(*range),
            },
            FetchStep::Keep => FetchStepModel::Keep,
            FetchStep::Announce => FetchStepModel::Announce,
            FetchStep::Finished(r) => FetchStepModel::Finished(crate::operations::plain_bytes(*r)),
        }
    }
}

/// What a replica answered.
#[derive(Debug, PartialEq)]
pub struct FetchReply {
    pub status: u16,
    /// The status as it is written.
    pub status_text: String,
    /// The digest of the part that the replica gives.
    pub range_digest: Option<String>,
    pub body: Result<Vec<u8>, String>,
}

pub struct FetchReplyModel {
    pub status: u16,
    pub status_text: Seq<char>,
    pub range_digest: Option<Seq<char>>,
    pub body: Result<Seq<u8>, Seq<char>>,
}

impl View for FetchReply {
    type V = FetchReplyModel;

    open spec fn view(&self) -> FetchReplyModel {
        FetchReplyModel {
            status: self.status,
            status_text: self.status_text@,
            range_digest: crate::text::view_of(self.range_digest),
            body: crate::operations::plain_bytes(self.body),
        }
    }
}

/// What came of a step.
#[derive(Debug, PartialEq)]
pub enum FetchEvent {
    /// The store does not have the object.
    Absent,
    /// What reading the object from the store gave.
    Local(Result<Vec<u8>, String>),
    /// The replica could not be asked.
    Unreachable(String),
    Reply(FetchReply),
    /// Whether the bytes could be put into the store.
    Kept(Result<(), String>),
    /// Whether the coordinator could be told.
    Announced(Result<(), String>),
}

pub enum FetchEventModel {
    Absent,
    Local(Result<Seq<u8>, Seq<char>>),
    Unreachable(Seq<char>),
    Reply(FetchReplyModel),
    Kept(Result<(), Seq<char>>),
    Announced(Result<(), Seq<char>>),
}

/// Success or a text, of plain values.
pub open spec fn plain_unit(r: Result<(), String>) -> Result<(), Seq<char>> {
    match r {
        Ok(_) => Ok(()),
        Err(message) => Err(message@),
    }
}

impl View for FetchEvent {
    type V = FetchEventModel;

    open spec fn view(&self) -> FetchEventModel {
        match self {
            FetchEvent::Absent => FetchEventModel::Absent,
            FetchEvent::Local(r) => FetchEventModel::Local(crate::operations::plain_bytes(*r)),
            FetchEvent::Unreachable(message) => FetchEventModel::Unreachable(message@),
            FetchEvent::Reply(reply) => FetchEventModel::Reply(reply@),
            FetchEvent::Kept(r) => FetchEventModel::Kept(plain_unit(*r)),
            FetchEvent::Announced(r) => FetchEventModel::Announced(plain_unit(*r)),
        }
    }
}

/// How far the search for an input has come.
#[derive(Debug)]
pub struct InputFetch {
    pub digest: String,
    pub part: Option<Span>,
    pub urls: Vec<String>,
    pub next: usize,
    pub last_error: String,
    pub held: Vec<u8>,
}

#[verifier::ext_equal]
pub struct FetchModel {
    pub digest: Seq<char>,
    pub part: Option<Span>,
    pub urls: Seq<Seq<char>>,
    pub next: nat,
    pub last_error: Seq<char>,
    pub held: Seq<u8>,
}

impl View for InputFetch {
    type V = FetchModel;

    open spec fn view(&self) -> FetchModel {
        FetchModel {
            digest: self.digest@,
            part: self.part,
            urls: crate::text::views(self.urls@),
            next: self.next as nat,
            last_error: self.last_error@,
            held: self.held@,
        }
    }
}

/// The addresses of replicas, in order.
pub open spec fn urls_of(replicas: Seq<ReplicaModel>) -> Seq<Seq<char>> {
    Seq::new(replicas.len(), |i: int| replicas[i].url)
}

/// The part that is wanted, where it is not all.
pub open spec fn part_in(what: Wanted) -> Option<Span> {
    match what {
        Wanted::Part(span) => Some(span),
        _ => None,
    }
}

impl FetchModel {
    /// The search for an input at its beginning.
    pub open spec fn beginning(input: ResolvedModel, range: Option<(u64, u64)>) -> (
        FetchModel,
        FetchStepModel,
    ) {
        let fresh = FetchModel {
            digest: match input.metadata.digest {
                Some(digest) => digest,
                None => Seq::empty(),
            },
            part: match wanted(input.metadata.size_bytes, range) {
                Ok(what) => part_in(what),
                Err(_) => None,
            },
            urls: urls_of(input.replicas),
            next: 0,
            last_error: "no replicas supplied"@,
            held: Seq::empty(),
        };
        let step = if input.metadata.digest is None {
            FetchStepModel::Finished(
                Err("input "@ + crate::ids::hyphenated(input.metadata.id.0) + " has no digest"@),
            )
        } else {
            match wanted(input.metadata.size_bytes, range) {
                Err(message) => FetchStepModel::Finished(Err(message)),
                Ok(Wanted::Nothing) => FetchStepModel::Finished(Ok(Seq::empty())),
                Ok(_) => FetchStepModel::Look,
            }
        };
        (fresh, step)
    }

    /// The replica that is asked.
    pub open spec fn asked(self) -> Seq<char> {
        if self.next < self.urls.len() {
            self.urls[self.next as int]
        } else {
            Seq::empty()
        }
    }

    /// Asks the next replica, if there is one.
    pub open spec fn asking(self) -> FetchStepModel {
        if self.next < self.urls.len() {
            FetchStepModel::Ask {
                url: self.urls[self.next as int],
                range: match self.part {
                    Some(span) => Some(crate::transfer::range_request(span.offset, span.end)),
                    None => None,
                },
            }
        } else {
            FetchStepModel::Finished(Err(self.last_error))
        }
    }

    /// Goes on to the next replica, for a reason.
    pub open spec fn moving_on(self, reason: Seq<char>) -> (FetchModel, FetchStepModel) {
        let next = FetchModel { next: self.next + 1, last_error: reason, ..self };
        (next, next.asking())
    }

    /// What is wrong with the answer of a replica to a request for a part.
    pub open spec fn part_error(self, span: Span, reply: FetchReplyModel) -> Option<Seq<char>> {
        if reply.status != 206 {
            Some(
                "replica "@ + self.asked() + " returned "@ + reply.status_text + " for byte range"@,
            )
        } else if reply.range_digest is None {
            Some("replica "@ + self.asked() + " omitted range digest"@)
        } else {
            match reply.body {
                Err(_) => None,
                Ok(bytes) => if bytes.len() != span.end - span.offset {
                    Some(
                        "replica "@ + self.asked() + " returned "@ + crate::text::decimal(bytes.len())
                            + (" range bytes, expected "@ + crate::text::decimal(
                            (span.end - span.offset) as nat,
                        )),
                    )
                } else if crate::store::content_digest(bytes) != reply.range_digest.unwrap() {
                    Some(
                        "replica range digest mismatch: expected "@ + reply.range_digest.unwrap()
                            + ", received "@ + crate::store::content_digest(bytes),
                    )
                } else {
                    None
                },
            }
        }
    }

    /// What follows an event.
    pub open spec fn after(self, event: FetchEventModel) -> (FetchModel, FetchStepModel) {
        match event {
            FetchEventModel::Absent => (self, self.asking()),
            FetchEventModel::Local(Err(message)) => (self, FetchStepModel::Finished(Err(message))),
            FetchEventModel::Local(Ok(bytes)) => (
                self,
                FetchStepModel::Finished(
                    match crate::store::checked(self.digest, bytes) {
                        Err(error) => Err(error.description()),
                        Ok(_) => Ok(
                            match self.part {
                                Some(span) => bytes.subrange(span.offset as int, span.end as int),
                                None => bytes,
                            },
                        ),
                    },
                ),
            ),
            FetchEventModel::Unreachable(message) => self.moving_on(message),
            FetchEventModel::Reply(reply) => match self.part {
                Some(span) => match self.part_error(span, reply) {
                    Some(reason) => self.moving_on(reason),
                    None => (self, FetchStepModel::Finished(reply.body)),
                },
                None => if !(200 <= reply.status < 300) {
                    self.moving_on("replica "@ + self.asked() + " returned "@ + reply.status_text)
                } else {
                    match reply.body {
                        Err(message) => (self, FetchStepModel::Finished(Err(message))),
                        Ok(bytes) => (FetchModel { held: bytes, ..self }, FetchStepModel::Keep),
                    }
                },
            },
            FetchEventModel::Kept(Err(message)) => (self, FetchStepModel::Finished(Err(message))),
            FetchEventModel::Kept(Ok(_)) => if crate::store::content_digest(self.held) != self.digest {
                self.moving_on(
                    "replica digest mismatch: expected "@ + self.digest + ", received "@
                        + crate::store::content_digest(self.held),
                )
            } else {
                (self, FetchStepModel::Announce)
            },
            FetchEventModel::Announced(Err(message)) => (
                self,
                FetchStepModel::Finished(Err(message)),
            ),
            FetchEventModel::Announced(Ok(_)) => (self, FetchStepModel::Finished(Ok(self.held))),
        }
    }
}

fn slice(bytes: &Vec<u8>, span: Span) -> (r: Vec<u8>)
    requires
        span.offset <= span.end <= bytes@.len(),
    ensures
        r@ == bytes@.subrange(span.offset as int, span.end as int),
{
    let total: usize = bytes.len();
    assert(span.end <= total);
    part_of(bytes, span.offset as usize, span.end as usize)
}

impl InputFetch {
    /// Parts are not empty.
    pub open spec fn wf(self) -> bool {
        &&& self.next <= self.urls@.len()
        &&& self.part matches Some(span) ==> span.offset < span.end
    }

    /// Begins the search for an input, of which a task wants a range or all.
    pub fn start(input: &ResolvedObject, range: Option<(u64, u64)>) -> (r: (InputFetch, FetchStep))
        ensures
            (r.0@, r.1@) == FetchModel::beginning(input@, range),
            r.0.wf(),
    {
        let mut urls: Vec<String> = Vec::new();
        let mut i: usize = 0;
        while i < input.replicas.len()
            invariant
                i <= input.replicas@.len(),
                urls@.len() == i,
                forall|j: int| 0 <= j < i ==> (#[trigger] urls@[j])@ == urls_of(input@.replicas)[j],
            decreases input.replicas@.len() - i,
        {
            assert(input@.replicas[i as int] == input.replicas@[i as int]@);
            urls.push(input.replicas[i].url.clone());
            i = i + 1;
        }
        assert(crate::text::views(urls@) =~= urls_of(input@.replicas));
        let asked = want(input.metadata.size_bytes, range);
        let part = match &asked {
            Ok(Wanted::Part(span)) => Some(*span),
            _ => None,
        };
        let digest = match &input.metadata.digest {
            Some(digest) => digest.clone(),
            None => {
                proof {
                    reveal_strlit("");
                }
                let none = "".to_owned();
                assert(none@ =~= Seq::<char>::empty());
                none
            },
        };
        let fetch = InputFetch {
            digest,
            part,
            urls,
            next: 0,
            last_error: "no replicas supplied".to_owned(),
            held: Vec::new(),
        };
        let step = if input.metadata.digest.is_none() {
            FetchStep::Finished(
                Err(concat3("input ", input.metadata.id.text().as_str(), " has no digest")),
            )
        } else {
            match asked {
                Err(message) => FetchStep::Finished(Err(message)),
                Ok(Wanted::Nothing) => FetchStep::Finished(Ok(Vec::new())),
                Ok(_) => FetchStep::Look,
            }
        };
        assert(fetch@ =~= FetchModel::beginning(input@, range).0);
        (fetch, step)
    }

    fn ask(&self) -> (r: FetchStep)
        requires
            self.wf(),
        ensures
            r@ == self@.asking(),
    {
        if self.next < self.urls.len() {
            assert(self@.urls[self.next as int] == self.urls@[self.next as int]@);
            FetchStep::Ask {
                url: self.urls[self.next].clone(),
                range: match self.part {
                    Some(span) => Some(range_header(span.offset, span.end)),
                    None => None,
                },
            }
        } else {
            FetchStep::Finished(Err(self.last_error.clone()))
        }
    }

    fn move_on(&mut self, reason: String) -> (r: FetchStep)
        requires
            old(self).wf(),
            old(self).next < old(self).urls@.len(),
        ensures
            (final(self)@, r@) == old(self)@.moving_on(reason@),
            final(self).wf(),
    {
        let count: usize = self.urls.len();
        assert(self.next < count);
        self.next = self.next + 1;
        self.last_error = reason;
        assert(self@ =~= old(self)@.moving_on(reason@).0);
        self.ask()
    }

    fn asked_url(&self) -> (r: &str)
        requires
            self.next < self.urls@.len(),
        ensures
            r@ == self@.asked(),
    {
        assert(self@.urls[self.next as int] == self.urls@[self.next as int]@);
        self.urls[self.next].as_str()
    }

    fn check_part(&self, span: Span, reply: &FetchReply) -> (r: Option<String>)
        requires
            self.next < self.urls@.len(),
            span.offset < span.end,
        ensures
            crate::text::view_of(r) == self@.part_error(span, reply@),
    {
        if reply.status != 206 {
            return Some(
                concat5(
                    "replica ",
                    self.asked_url(),
                    " returned ",
                    reply.status_text.as_str(),
                    " for byte range",
                ),
            );
        }
        let expected = match &reply.range_digest {
            Some(expected) => expected,
            None => {
                return Some(concat3("replica ", self.asked_url(), " omitted range digest"));
            },
        };
        let bytes = match &reply.body {
            Ok(bytes) => bytes,
            Err(_) => {
                return None;
            },
        };
        let length: u64 = span.end - span.offset;
        if bytes.len() as u64 != length {
            let given = concat4(
                "replica ",
                self.asked_url(),
                " returned ",
                decimal_text(bytes.len() as u64).as_str(),
            );
            let due = concat2(" range bytes, expected ", decimal_text(length).as_str());
            return Some(concat2(given.as_str(), due.as_str()));
        }
        let actual = digest_of(bytes);
        if !same_text(actual.as_str(), expected.as_str()) {
            return Some(
                concat4(
                    "replica range digest mismatch: expected ",
                    expected.as_str(),
                    ", received ",
                    actual.as_str(),
                ),
            );
        }
        None
    }

    /// Whether an event can follow: a replica is heard of only after it was asked, and the store
    /// gives an object that has the wanted part.
    pub open spec fn admits(self, event: FetchEvent) -> bool {
        match event {
            FetchEvent::Absent => true,
            FetchEvent::Local(Ok(bytes)) => self.part matches Some(span) ==> span.end <= bytes@.len(),
            FetchEvent::Local(Err(_)) => true,
            FetchEvent::Announced(_) => true,
            FetchEvent::Unreachable(_) => self.next < self.urls@.len(),
            FetchEvent::Reply(_) => self.next < self.urls@.len(),
            FetchEvent::Kept(_) => self.next < self.urls@.len(),
        }
    }

    /// What is to be done after an event.
    pub fn advance(&mut self, event: FetchEvent) -> (r: FetchStep)
        requires
            old(self).wf(),
            old(self).admits(event),
        ensures
            (final(self)@, r@) == old(self)@.after(event@),
            final(self).wf(),
    {
        match event {
            FetchEvent::Absent => self.ask(),
            FetchEvent::Local(Err(message)) => FetchStep::Finished(Err(message)),
            FetchEvent::Local(Ok(bytes)) => {
                if let Err(error) = check_digest(self.digest.as_str(), &bytes) {
                    return FetchStep::Finished(Err(error.message()));
                }
                match self.part {
                    Some(span) => FetchStep::Finished(Ok(slice(&bytes, span))),
                    None => FetchStep::Finished(Ok(bytes)),
                }
            },
            FetchEvent::Unreachable(message) => self.move_on(message),
            FetchEvent::Reply(reply) => match self.part {
                Some(span) => match self.check_part(span, &reply) {
                    Some(reason) => self.move_on(reason),
                    None => FetchStep::Finished(reply.body),
                },
                None => {
                    if !(200 <= reply.status && reply.status < 300) {
                        let reason = concat4(
                            "replica ",
                            self.asked_url(),
                            " returned ",
                            reply.status_text.as_str(),
                        );
                        return self.move_on(reason);
                    }
                    match reply.body {
                        Err(message) => FetchStep::Finished(Err(message)),
                        Ok(bytes) => {
                            self.held = bytes;
                            FetchStep::Keep
                        },
                    }
                },
            },
            FetchEvent::Kept(Err(message)) => FetchStep::Finished(Err(message)),
            FetchEvent::Kept(Ok(_)) => {
                let actual = digest_of(&self.held);
                if same_text(actual.as_str(), self.digest.as_str()) {
                    FetchStep::Announce
                } else {
                    let reason = concat4(
                        "replica digest mismatch: expected ",
                        self.digest.as_str(),
                        ", received ",
                        actual.as_str(),
                    );
                    self.move_on(reason)
                }
            },
            FetchEvent::Announced(Err(message)) => FetchStep::Finished(Err(message)),
            FetchEvent::Announced(Ok(_)) => FetchStep::Finished(Ok(self.held.clone())),
        }
    }
}

/// What the store gives is verified too: it is taken only if it has the digest of the object, and a
/// part of it is cut from bytes that have.
pub proof fn law_local_objects_are_verified(fetch: FetchModel, bytes: Seq<u8>)
    ensures
        fetch.after(FetchEventModel::Local(Ok(bytes))).1 matches FetchStepModel::Finished(Ok(taken)) ==> {
            &&& crate::store::content_digest(bytes) == fetch.digest
            &&& taken == match fetch.part {
                Some(span) => bytes.subrange(span.offset as int, span.end as int),
                None => bytes,
            }
        },
        crate::store::content_digest(bytes) != fetch.digest ==> (fetch.after(
            FetchEventModel::Local(Ok(bytes)),
        ).1 matches FetchStepModel::Finished(r) && r is Err),
{
}

/// A replica is believed only as far as it can be verified: all of an object only if it has the
/// digest of the object, a part of one only if it has the length of the part and the digest that
/// came with it.
pub proof fn law_replicas_are_verified(fetch: FetchModel, event: FetchEventModel)
    ensures
        fetch.after(event).1 is Announce ==> crate::store::content_digest(fetch.after(event).0.held)
            == fetch.digest,
        event matches FetchEventModel::Reply(reply) ==> (fetch.after(event).1 matches FetchStepModel::Finished(
            Ok(bytes),
        ) ==> fetch.part matches Some(span) && bytes.len() == span.end - span.offset
            && reply.range_digest == Some(crate::store::content_digest(bytes))),
        event matches FetchEventModel::Announced(_) ==> (fetch.after(event).1 matches FetchStepModel::Finished(
            Ok(bytes),
        ) ==> bytes == fetch.held),
{
}

/// A part of an object is neither kept as the object nor announced as a replica of it.
pub proof fn law_parts_are_not_kept(fetch: FetchModel, event: FetchEventModel)
    requires
        fetch.part is Some,
        !(event is Kept),
    ensures
        !(fetch.after(event).1 is Keep),
        !(fetch.after(event).1 is Announce),
        fetch.after(event).0.part == fetch.part,
{
}

/// Replicas are asked one after the other, each once: what is asked is the next, and a replica that
/// was given up is not asked again.
pub proof fn law_replicas_are_asked_in_order(fetch: FetchModel, event: FetchEventModel)
    ensures
        fetch.next <= fetch.after(event).0.next <= fetch.next + 1,
        fetch.after(event).0.urls == fetch.urls,
        fetch.after(event).1 matches FetchStepModel::Ask { url, .. } ==> fetch.after(event).0.next
            < fetch.urls.len() && url == fetch.urls[fetch.after(event).0.next as int],
        fetch.after(event).1 is Ask && !(event is Absent) ==> fetch.after(event).0.next == fetch.next + 1,
{
}

/// What a replica gave cannot be used: it could not be reached, or refused, or what it gave of a part
/// does not have the length that was asked for or the digest that came with it.
pub open spec fn unusable(part: Option<Span>, event: FetchEventModel) -> bool {
    match event {
        FetchEventModel::Unreachable(_) => true,
        FetchEventModel::Reply(reply) => match part {
            None => reply.status < 200 || reply.status >= 300,
            Some(span) => {
                ||| reply.status != 206
                ||| reply.range_digest is None
                ||| reply.body matches Ok(bytes) && (bytes.len() != span.end - span.offset
                    || reply.range_digest != Some(crate::store::content_digest(bytes)))
            },
        },
        _ => false,
    }
}

/// A replica that cannot be used is no reason to give up as long as there is another: the next one is
/// asked for the same, and only after the last one does the search end without the input. The same
/// holds of bytes that do not have the digest of the object.
pub proof fn law_every_replica_is_asked(fetch: FetchModel, event: FetchEventModel)
    requires
        unusable(fetch.part, event) || (event == FetchEventModel::Kept(Ok(()))
            && crate::store::content_digest(fetch.held) != fetch.digest),
    ensures
        ({
            let (then, step) = fetch.after(event);
            &&& then.next == fetch.next + 1
            &&& then.urls == fetch.urls
            &&& then.part == fetch.part
            &&& then.digest == fetch.digest
            &&& if fetch.next + 1 < fetch.urls.len() {
                step matches FetchStepModel::Ask { url, range } && url == fetch.urls[fetch.next as int + 1] && range
                    == match fetch.part {
                    Some(span) => Some(crate::transfer::range_request(span.offset, span.end)),
                    None => None,
                }
            } else {
                step matches FetchStepModel::Finished(Err(reason)) && reason == then.last_error
            }
        }),
        event matches FetchEventModel::Unreachable(message) ==> fetch.after(event).0.last_error == message,
{
}

/// The search begins with a look at the store, and with the first replica where the store does not
/// have the object. An input without a digest, or a range that is not within it, is not looked for;
/// and for an empty range there is nothing to look for.
pub proof fn law_searches_begin_at_home(input: ResolvedModel, range: Option<(u64, u64)>)
    ensures
        ({
            let (fetch, step) = FetchModel::beginning(input, range);
            let size = input.metadata.size_bytes;
            let known = input.metadata.digest is Some;
            let inside = range matches Some((offset, length)) ==> offset + length <= size;
            let empty = range matches Some((offset, length)) && length == 0 && !(offset == 0 && size == 0);
            &&& step is Look || step is Finished
            &&& step is Look <==> known && inside && !empty
            &&& known && inside && empty ==> step == FetchStepModel::Finished(
                Ok::<Seq<u8>, Seq<char>>(Seq::empty()),
            )
            &&& !(known && inside) ==> (step matches FetchStepModel::Finished(r) && r is Err)
            &&& step is Look ==> {
                &&& fetch.next == 0
                &&& Some(fetch.digest) == input.metadata.digest
                &&& fetch.urls.len() == input.replicas.len()
                &&& forall|i: int| 0 <= i < fetch.urls.len() ==> #[trigger] fetch.urls[i] == input.replicas[i].url
                &&& match range {
                    None => fetch.part is None,
                    Some((offset, length)) => if offset == 0 && length == size {
                        fetch.part is None
                    } else {
                        fetch.part matches Some(span) && span.offset == offset && span.end == offset + length
                    },
                }
                &&& fetch.urls.len() > 0 ==> (fetch.after(FetchEventModel::Absent).1 matches FetchStepModel::Ask {
                    url,
                    ..
                } && url == input.replicas[0].url)
                &&& fetch.urls.len() == 0 ==> (fetch.after(FetchEventModel::Absent).1 matches FetchStepModel::Finished(
                    r,
                ) && r is Err)
            }
        }),
{
}

/// All of an object that a replica gives goes into the store before it is used, is announced once it
/// is there and verified, and is then what the search ends with.
pub proof fn law_fetched_objects_are_kept_and_announced(fetch: FetchModel, reply: FetchReplyModel, bytes: Seq<u8>)
    requires
        fetch.part is None,
        200 <= reply.status < 300,
        reply.body == Ok::<Seq<u8>, Seq<char>>(bytes),
        crate::store::content_digest(bytes) == fetch.digest,
    ensures
        ({
            let (held, first) = fetch.after(FetchEventModel::Reply(reply));
            let (kept, second) = held.after(FetchEventModel::Kept(Ok(())));
            let (told, third) = kept.after(FetchEventModel::Announced(Ok(())));
            &&& first is Keep
            &&& held.held == bytes
            &&& second is Announce
            &&& third == FetchStepModel::Finished(Ok::<Seq<u8>, Seq<char>>(bytes))
        }),
{
}

/// A part that a replica gives with its length and its digest is what the search ends with.
pub proof fn law_verified_parts_are_taken(fetch: FetchModel, reply: FetchReplyModel, bytes: Seq<u8>)
    requires
        fetch.part is Some,
        reply.status == 206,
        reply.body == Ok::<Seq<u8>, Seq<char>>(bytes),
        bytes.len() == fetch.part.unwrap().end - fetch.part.unwrap().offset,
        reply.range_digest == Some(crate::store::content_digest(bytes)),
    ensures
        fetch.after(FetchEventModel::Reply(reply)).1 == FetchStepModel::Finished(
            Ok::<Seq<u8>, Seq<char>>(bytes),
        ),
{
}

}
