use vstd::prelude::*;

verus! {

/// The ways a statement can fail. Each variant carries a readable message.
#[derive(Debug)]
pub enum MiniSQLError {
    /// A missing, repeated or unreadable table reference.
    InvalidTable(String),
    /// A requested column that the table's header does not hold.
    InvalidColumn(String),
    /// A malformed statement or condition, a type mismatch in a comparison,
    /// or a malformed ORDER BY.
    InvalidSyntax(String),
    /// A storage failure or a broken internal invariant.
    Generic(String),
}

/// The kind of a `MiniSQLError`, without its message.
#[derive(PartialEq, Eq, Structural, Clone, Copy, Debug)]
pub enum ErrorKind {
    InvalidTable,
    InvalidColumn,
    InvalidSyntax,
    Generic,
}

impl MiniSQLError {
    pub open spec fn kind(&self) -> ErrorKind {
        match self {
            MiniSQLError::InvalidTable(_) => ErrorKind::InvalidTable,
            MiniSQLError::InvalidColumn(_) => ErrorKind::InvalidColumn,
            MiniSQLError::InvalidSyntax(_) => ErrorKind::InvalidSyntax,
            MiniSQLError::Generic(_) => ErrorKind::Generic,
        }
    }

    pub open spec fn msg(&self) -> Seq<char> {
        match self {
            MiniSQLError::InvalidTable(m) => m@,
            MiniSQLError::InvalidColumn(m) => m@,
            MiniSQLError::InvalidSyntax(m) => m@,
            MiniSQLError::Generic(m) => m@,
        }
    }

    /// The message, without the kind's tag.
    pub fn message(&self) -> (r: &String)
        ensures
            r@ == self.msg(),
    {
        match self {
            MiniSQLError::InvalidTable(m) => m,
            MiniSQLError::InvalidColumn(m) => m,
            MiniSQLError::InvalidSyntax(m) => m,
            MiniSQLError::Generic(m) => m,
        }
    }

    /// The rendering used when reporting the error: `[TAG]: [message]`.
    pub fn describe(&self) -> (r: String)
        ensures
            r@ == self.tag()@ + self.msg() + "]"@,
    {
        let mut out = String::from_str(self.tag_str());
        out.append(self.message().as_str());
        out.append("]");
        out
    }

    pub open spec fn tag(&self) -> &'static str {
        match self {
            MiniSQLError::InvalidTable(_) => "[INVALID_TABLE]: [",
            MiniSQLError::InvalidColumn(_) => "[INVALID_COLUMN]: [",
            MiniSQLError::InvalidSyntax(_) => "[INVALID_SYNTAX]: [",
            MiniSQLError::Generic(_) => "[ERROR]: [",
        }
    }

    fn tag_str(&self) -> (r: &'static str)
        ensures
            r == self.tag(),
    {
        match self {
            MiniSQLError::InvalidTable(_) => "[INVALID_TABLE]: [",
            MiniSQLError::InvalidColumn(_) => "[INVALID_COLUMN]: [",
            MiniSQLError::InvalidSyntax(_) => "[INVALID_SYNTAX]: [",
            MiniSQLError::Generic(_) => "[ERROR]: [",
        }
    }
}

impl PartialEq for MiniSQLError {
    fn eq(&self, other: &MiniSQLError) -> (r: bool) {
        let same_kind = match (self, other) {
            (MiniSQLError::InvalidTable(_), MiniSQLError::InvalidTable(_)) => true,
            (MiniSQLError::InvalidColumn(_), MiniSQLError::InvalidColumn(_)) => true,
            (MiniSQLError::InvalidSyntax(_), MiniSQLError::InvalidSyntax(_)) => true,
            (MiniSQLError::Generic(_), MiniSQLError::Generic(_)) => true,
            _ => false,
        };
        same_kind && string_eq(self.message(), other.message())
    }
}

fn string_eq(a: &String, b: &String) -> (r: bool)
    ensures
        r == (a@ == b@),
{
    *a == *b
}

impl vstd::std_specs::cmp::PartialEqSpecImpl for MiniSQLError {
    open spec fn obeys_eq_spec() -> bool {
        true
    }

    open spec fn eq_spec(&self, other: &MiniSQLError) -> bool {
        self.kind() == other.kind() && self.msg() == other.msg()
    }
}

} // verus!
