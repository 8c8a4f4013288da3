//! Identifiers: 128-bit random values, written as hyphenated UUIDs.

use vstd::prelude::*;
use vstd::string::*;

verus! {

/// The lower-case hexadecimal digit of a number below sixteen.
pub open spec fn hex_digit(d: nat) -> char {
    if d < 10 {
        (48 + d) as char
    } else {
        (87 + d) as char
    }
}

/// The `i`-th of the 32 hexadecimal digits of a 128-bit value, from the most significant.
pub open spec fn nibble(bits: u128, i: int) -> nat {
    ((bits as int / vstd::arithmetic::power2::pow2((4 * (31 - i)) as nat) as int) % 16) as nat
}

/// The hyphenated form of a UUID: 32 digits in groups of 8, 4, 4, 4 and 12.
pub open spec fn hyphenated(bits: u128) -> Seq<char> {
    Seq::new(
        36,
        |i: int|
            if i == 8 || i == 13 || i == 18 || i == 23 {
                '-'
            } else {
                let hyphens: int = if i < 8 {
                    0
                } else if i < 13 {
                    1
                } else if i < 18 {
                    2
                } else if i < 23 {
                    3
                } else {
                    4
                };
                hex_digit(nibble(bits, i - hyphens))
            },
    )
}

/// What `uuid::Uuid::parse_str` makes of a text: the 128 bits of the UUID that it spells, or the
/// message of the error.
pub uninterp spec fn parsed_uuid(text: Seq<char>) -> Result<u128, Seq<char>>;

/// A parse result with the message as a plain sequence.
pub open spec fn plain_outcome(r: Result<u128, String>) -> Result<u128, Seq<char>> {
    match r {
        Ok(bits) => Ok(bits),
        Err(message) => Err(message@),
    }
}

/// A parse result is a given value.
pub open spec fn reads_as(r: Result<u128, String>, bits: u128) -> bool {
    r matches Ok(read) && read == bits
}

/// Calls `uuid::Uuid::new_v4`, which draws a random UUID of version 4 from the operating system.
/// Of the value it is only claimed that the version and variant bits are those of such a UUID.
#[verifier::external_body]
fn random_uuid() -> (bits: u128)
    ensures
        (bits / 0x1000_0000_0000_0000_0000) % 16 == 4,
        (bits / 0x4000_0000_0000_0000) % 4 == 2,
{
    uuid::Uuid::new_v4().as_u128()
}

/// Calls `uuid::Uuid::parse_str`, which accepts the simple, hyphenated, braced and URN forms. The
/// result is named `parsed_uuid`: it depends on the text alone. The hyphenated form of a UUID reads
/// as that UUID.
#[verifier::external_body]
fn parse_uuid(text: &str) -> (r: Result<u128, String>)
    ensures
        plain_outcome(r) == parsed_uuid(text@),
        forall|bits: u128| text@ == #[trigger] hyphenated(bits) ==> reads_as(r, bits),
{
    match uuid::Uuid::parse_str(text) {
        Ok(parsed) => Ok(parsed.as_u128()),
        Err(error) => Err(error.to_string()),
    }
}

/// Calls the `Display` of `uuid::Uuid`, which writes the hyphenated form in lower case.
#[verifier::external_body]
fn uuid_text(bits: u128) -> (text: String)
    ensures
        text@ == hyphenated(bits),
{
    uuid::Uuid::from_u128(bits).to_string()
}

/// Why a text is not an identifier.
#[derive(Debug, PartialEq, Eq)]
pub struct IdError {
    pub message: String,
}

/// Identifies a task.
#[derive(Clone, Copy, Debug, PartialEq, Eq, Structural, Hash, PartialOrd, Ord)]
pub struct TaskId(pub u128);

impl TaskId {
    /// A random identifier.
    pub fn new() -> (id: TaskId)
        ensures
            (id.0 / 0x1000_0000_0000_0000_0000) % 16 == 4,
            (id.0 / 0x4000_0000_0000_0000) % 4 == 2,
    {
        TaskId(random_uuid())
    }

    /// The identifier as text.
    pub fn text(&self) -> (text: String)
        ensures
            text@ == hyphenated(self.0),
    {
        uuid_text(self.0)
    }

    /// Reads an identifier.
    pub fn parse(text: &str) -> (r: Result<TaskId, IdError>)
        ensures
            match r {
                Ok(id) => parsed_uuid(text@) matches Ok(read) && read == id.0,
                Err(error) => parsed_uuid(text@) matches Err(reason) && reason == error.message@,
            },
            forall|bits: u128|
                text@ == #[trigger] hyphenated(bits) ==> (r matches Ok(id) && id.0 == bits),
    {
        match parse_uuid(text) {
            Ok(bits) => Ok(TaskId(bits)),
            Err(message) => Err(IdError { message }),
        }
    }
}

impl Default for TaskId {
    fn default() -> (id: TaskId)
        ensures
            (id.0 / 0x1000_0000_0000_0000_0000) % 16 == 4,
            (id.0 / 0x4000_0000_0000_0000) % 4 == 2,
    {
        TaskId::new()
    }
}

impl std::str::FromStr for TaskId {
    type Err = IdError;

    /// Reads an identifier.
    fn from_str(text: &str) -> (r: Result<TaskId, IdError>)
        ensures
            match r {
                Ok(id) => parsed_uuid(text@) matches Ok(read) && read == id.0,
                Err(error) => parsed_uuid(text@) matches Err(reason) && reason == error.message@,
            },
            forall|bits: u128|
                text@ == #[trigger] hyphenated(bits) ==> (r matches Ok(id) && id.0 == bits),
    {
        TaskId::parse(text)
    }
}

/// Identifies a job.
#[derive(Clone, Copy, Debug, PartialEq, Eq, Structural, Hash, PartialOrd, Ord)]
pub struct JobId(pub u128);

impl JobId {
    /// A random identifier.
    pub fn new() -> (id: JobId)
        ensures
            (id.0 / 0x1000_0000_0000_0000_0000) % 16 == 4,
            (id.0 / 0x4000_0000_0000_0000) % 4 == 2,
    {
        JobId(random_uuid())
    }

    /// The identifier as text.
    pub fn text(&self) -> (text: String)
        ensures
            text@ == hyphenated(self.0),
    {
        uuid_text(self.0)
    }

    /// Reads an identifier.
    pub fn parse(text: &str) -> (r: Result<JobId, IdError>)
        ensures
            match r {
                Ok(id) => parsed_uuid(text@) matches Ok(read) && read == id.0,
                Err(error) => parsed_uuid(text@) matches Err(reason) && reason == error.message@,
            },
            forall|bits: u128|
                text@ == #[trigger] hyphenated(bits) ==> (r matches Ok(id) && id.0 == bits),
    {
        match parse_uuid(text) {
            Ok(bits) => Ok(JobId(bits)),
            Err(message) => Err(IdError { message }),
        }
    }
}

impl Default for JobId {
    fn default() -> (id: JobId)
        ensures
            (id.0 / 0x1000_0000_0000_0000_0000) % 16 == 4,
            (id.0 / 0x4000_0000_0000_0000) % 4 == 2,
    {
        JobId::new()
    }
}

impl std::str::FromStr for JobId {
    type Err = IdError;

    /// Reads an identifier.
    fn from_str(text: &str) -> (r: Result<JobId, IdError>)
        ensures
            match r {
                Ok(id) => parsed_uuid(text@) matches Ok(read) && read == id.0,
                Err(error) => parsed_uuid(text@) matches Err(reason) && reason == error.message@,
            },
            forall|bits: u128|
                text@ == #[trigger] hyphenated(bits) ==> (r matches Ok(id) && id.0 == bits),
    {
        JobId::parse(text)
    }
}

/// Identifies an object.
#[derive(Clone, Copy, Debug, PartialEq, Eq, Structural, Hash, PartialOrd, Ord)]
pub struct ObjectId(pub u128);

impl ObjectId {
    /// A random identifier.
    pub fn new() -> (id: ObjectId)
        ensures
            (id.0 / 0x1000_0000_0000_0000_0000) % 16 == 4,
            (id.0 / 0x4000_0000_0000_0000) % 4 == 2,
    {
        ObjectId(random_uuid())
    }

    /// The identifier as text.
    pub fn text(&self) -> (text: String)
        ensures
            text@ == hyphenated(self.0),
    {
        uuid_text(self.0)
    }

    /// Reads an identifier.
    pub fn parse(text: &str) -> (r: Result<ObjectId, IdError>)
        ensures
            match r {
                Ok(id) => parsed_uuid(text@) matches Ok(read) && read == id.0,
                Err(error) => parsed_uuid(text@) matches Err(reason) && reason == error.message@,
            },
            forall|bits: u128|
                text@ == #[trigger] hyphenated(bits) ==> (r matches Ok(id) && id.0 == bits),
    {
        match parse_uuid(text) {
            Ok(bits) => Ok(ObjectId(bits)),
            Err(message) => Err(IdError { message }),
        }
    }
}

impl Default for ObjectId {
    fn default() -> (id: ObjectId)
        ensures
            (id.0 / 0x1000_0000_0000_0000_0000) % 16 == 4,
            (id.0 / 0x4000_0000_0000_0000) % 4 == 2,
    {
        ObjectId::new()
    }
}

impl std::str::FromStr for ObjectId {
    type Err = IdError;

    /// Reads an identifier.
    fn from_str(text: &str) -> (r: Result<ObjectId, IdError>)
        ensures
            match r {
                Ok(id) => parsed_uuid(text@) matches Ok(read) && read == id.0,
                Err(error) => parsed_uuid(text@) matches Err(reason) && reason == error.message@,
            },
            forall|bits: u128|
                text@ == #[trigger] hyphenated(bits) ==> (r matches Ok(id) && id.0 == bits),
    {
        ObjectId::parse(text)
    }
}

/// Identifies a resource.
#[derive(Clone, Copy, Debug, PartialEq, Eq, Structural, Hash, PartialOrd, Ord)]
pub struct ResourceId(pub u128);

impl ResourceId {
    /// A random identifier.
    pub fn new() -> (id: ResourceId)
        ensures
            (id.0 / 0x1000_0000_0000_0000_0000) % 16 == 4,
            (id.0 / 0x4000_0000_0000_0000) % 4 == 2,
    {
        ResourceId(random_uuid())
    }

    /// The identifier as text.
    pub fn text(&self) -> (text: String)
        ensures
            text@ == hyphenated(self.0),
    {
        uuid_text(self.0)
    }

    /// Reads an identifier.
    pub fn parse(text: &str) -> (r: Result<ResourceId, IdError>)
        ensures
            match r {
                Ok(id) => parsed_uuid(text@) matches Ok(read) && read == id.0,
                Err(error) => parsed_uuid(text@) matches Err(reason) && reason == error.message@,
            },
            forall|bits: u128|
                text@ == #[trigger] hyphenated(bits) ==> (r matches Ok(id) && id.0 == bits),
    {
        match parse_uuid(text) {
            Ok(bits) => Ok(ResourceId(bits)),
            Err(message) => Err(IdError { message }),
        }
    }
}

impl Default for ResourceId {
    fn default() -> (id: ResourceId)
        ensures
            (id.0 / 0x1000_0000_0000_0000_0000) % 16 == 4,
            (id.0 / 0x4000_0000_0000_0000) % 4 == 2,
    {
        ResourceId::new()
    }
}

impl std::str::FromStr for ResourceId {
    type Err = IdError;

    /// Reads an identifier.
    fn from_str(text: &str) -> (r: Result<ResourceId, IdError>)
        ensures
            match r {
                Ok(id) => parsed_uuid(text@) matches Ok(read) && read == id.0,
                Err(error) => parsed_uuid(text@) matches Err(reason) && reason == error.message@,
            },
            forall|bits: u128|
                text@ == #[trigger] hyphenated(bits) ==> (r matches Ok(id) && id.0 == bits),
    {
        ResourceId::parse(text)
    }
}

/// Identifies an execution attempt.
#[derive(Clone, Copy, Debug, PartialEq, Eq, Structural, Hash, PartialOrd, Ord)]
pub struct ExecutionId(pub u128);

impl ExecutionId {
    /// A random identifier.
    pub fn new() -> (id: ExecutionId)
        ensures
            (id.0 / 0x1000_0000_0000_0000_0000) % 16 == 4,
            (id.0 / 0x4000_0000_0000_0000) % 4 == 2,
    {
        ExecutionId(random_uuid())
    }

    /// The identifier as text.
    pub fn text(&self) -> (text: String)
        ensures
            text@ == hyphenated(self.0),
    {
        uuid_text(self.0)
    }

    /// Reads an identifier.
    pub fn parse(text: &str) -> (r: Result<ExecutionId, IdError>)
        ensures
            match r {
                Ok(id) => parsed_uuid(text@) matches Ok(read) && read == id.0,
                Err(error) => parsed_uuid(text@) matches Err(reason) && reason == error.message@,
            },
            forall|bits: u128|
                text@ == #[trigger] hyphenated(bits) ==> (r matches Ok(id) && id.0 == bits),
    {
        match parse_uuid(text) {
            Ok(bits) => Ok(ExecutionId(bits)),
            Err(message) => Err(IdError { message }),
        }
    }
}

impl Default for ExecutionId {
    fn default() -> (id: ExecutionId)
        ensures
            (id.0 / 0x1000_0000_0000_0000_0000) % 16 == 4,
            (id.0 / 0x4000_0000_0000_0000) % 4 == 2,
    {
        ExecutionId::new()
    }
}

impl std::str::FromStr for ExecutionId {
    type Err = IdError;

    /// Reads an identifier.
    fn from_str(text: &str) -> (r: Result<ExecutionId, IdError>)
        ensures
            match r {
                Ok(id) => parsed_uuid(text@) matches Ok(read) && read == id.0,
                Err(error) => parsed_uuid(text@) matches Err(reason) && reason == error.message@,
            },
            forall|bits: u128|
                text@ == #[trigger] hyphenated(bits) ==> (r matches Ok(id) && id.0 == bits),
    {
        ExecutionId::parse(text)
    }
}

}
