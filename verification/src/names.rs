//! Identifiers of schemas and tables, and the rules that admit them.
//!
//! A parsed statement refers to objects through possibly qualified
//! identifiers. A schema is named by exactly one part; a table by exactly
//! two (schema, table). Constructors here enforce those shapes and report
//! the offending identifier text otherwise.

use vstd::prelude::*;

verus! {

/// A possibly qualified identifier as the parser hands it over:
/// its dot-separated parts, in order.
#[derive(Debug)]
pub struct ObjectName {
    pub parts: Vec<String>,
}

impl View for ObjectName {
    type V = Seq<Seq<char>>;

    open spec fn view(&self) -> Seq<Seq<char>> {
        self.parts@.map_values(|p: String| p@)
    }
}

/// The text of a qualified identifier: its parts joined with dots.
pub open spec fn spec_joined(parts: Seq<Seq<char>>) -> Seq<char>
    decreases parts.len(),
{
    if parts.len() == 0 {
        Seq::empty()
    } else if parts.len() == 1 {
        parts[0]
    } else {
        parts[0] + "."@ + spec_joined(parts.drop_first())
    }
}

impl ObjectName {
    pub fn new(parts: Vec<String>) -> (r: ObjectName)
        ensures
            r.parts == parts,
    {
        ObjectName { parts }
    }

    /// The identifier as the user wrote it: parts joined with dots.
    pub fn joined(&self) -> (r: String)
        ensures
            r@ == spec_joined(self@),
    {
        let mut out = String::new();
        let n = self.parts.len();
        if n == 0 {
            return out;
        }
        out.append(self.parts[0].as_str());
        let mut i: usize = 1;
        while i < n
            invariant
                1 <= i <= n,
                n == self.parts.len(),
                out@ == spec_joined(self@.take(i as int)),
            decreases n - i,
        {
            out.append(".");
            out.append(self.parts[i].as_str());
            proof {
                lemma_joined_push(self@, i as int);
            }
            i = i + 1;
        }
        proof {
            assert(self@.take(n as int) =~= self@);
        }
        out
    }
}

proof fn lemma_joined_push(parts: Seq<Seq<char>>, i: int)
    requires
        1 <= i < parts.len(),
    ensures
        spec_joined(parts.take(i + 1)) == spec_joined(parts.take(i)) + "."@ + parts[i],
    decreases i,
{
    if i == 1 {
        assert(parts.take(2)[0] == parts[0]);
        assert(parts.take(2).drop_first() =~= seq![parts[1]]);
        assert(parts.take(1) =~= seq![parts[0]]);
    } else {
        lemma_joined_push(parts.drop_first(), i - 1);
        assert(parts.take(i + 1).drop_first() =~= parts.drop_first().take(i));
        assert(parts.take(i).drop_first() =~= parts.drop_first().take(i - 1));
        assert(parts.take(i + 1)[0] == parts[0]);
        assert(parts.take(i)[0] == parts[0]);
        assert(spec_joined(parts.take(i + 1)) == parts[0] + "."@ + spec_joined(
            parts.drop_first().take(i),
        ));
        assert(parts[0] + "."@ + (spec_joined(parts.drop_first().take(i - 1)) + "."@
            + parts.drop_first()[i - 1]) =~= (parts[0] + "."@ + spec_joined(
            parts.drop_first().take(i - 1),
        )) + "."@ + parts[i]);
    }
}

/// A validated unqualified schema name.
#[derive(Debug)]
pub struct SchemaName(String);

impl View for SchemaName {
    type V = Seq<char>;

    closed spec fn view(&self) -> Seq<char> {
        self.0@
    }
}

impl SchemaName {
    /// Admits exactly one-part identifiers; anything else is a naming error
    /// carrying the identifier text.
    pub fn try_from_object(object: &ObjectName) -> (r: Result<SchemaName, SchemaNamingError>)
        ensures
            object@.len() == 1 <==> r is Ok,
            r matches Ok(name) ==> name@ == spec_joined(object@),
            r matches Err(e) ==> e@ == spec_joined(object@),
    {
        let text = object.joined();
        if object.parts.len() != 1 {
            Err(SchemaNamingError(text))
        } else {
            Ok(SchemaName(text))
        }
    }

    pub fn as_str(&self) -> (r: &str)
        ensures
            r@ == self@,
    {
        self.0.as_str()
    }

    pub fn from_string(name: String) -> (r: SchemaName)
        ensures
            r@ == name@,
    {
        SchemaName(name)
    }
}

impl Clone for SchemaName {
    fn clone(&self) -> (r: Self)
        ensures
            r@ == self@,
    {
        SchemaName(self.0.clone())
    }
}

/// Failure to build a schema name: the identifier was qualified.
#[derive(Debug)]
pub struct SchemaNamingError(String);

impl View for SchemaNamingError {
    type V = Seq<char>;

    closed spec fn view(&self) -> Seq<char> {
        self.0@
    }
}

pub open spec fn spec_schema_naming_message(text: Seq<char>) -> Seq<char> {
    "only unqualified schema names are supported, '"@ + text + "'"@
}

impl SchemaNamingError {
    /// The user-facing text of the error.
    pub fn message(&self) -> (r: String)
        ensures
            r@ == spec_schema_naming_message(self@),
    {
        let mut out = String::from_str("only unqualified schema names are supported, '");
        out.append(self.0.as_str());
        out.append("'");
        out
    }
}

/// A fully qualified (schema, table) name.
#[derive(Debug)]
pub struct FullTableName(SchemaName, String);

impl View for FullTableName {
    type V = (Seq<char>, Seq<char>);

    closed spec fn view(&self) -> (Seq<char>, Seq<char>) {
        (self.0@, self.1@)
    }
}

pub open spec fn spec_full_name(schema: Seq<char>, table: Seq<char>) -> Seq<char> {
    schema + "."@ + table
}

impl FullTableName {
    /// Admits exactly two-part identifiers: one part is unqualified, more
    /// than two cannot be processed; either failure carries the text.
    pub fn try_from_object(object: &ObjectName) -> (r: Result<FullTableName, TableNamingError>)
        ensures
            object@.len() == 2 <==> r is Ok,
            r matches Ok(name) ==> name@ == (object@[0], object@[1]),
            r matches Err(e) ==> if object@.len() == 1 {
                e matches TableNamingError::Unqualified(t) && t@ == spec_joined(object@)
            } else {
                e matches TableNamingError::NotProcessed(t) && t@ == spec_joined(object@)
            },
    {
        if object.parts.len() == 1 {
            Err(TableNamingError::Unqualified(object.joined()))
        } else if object.parts.len() != 2 {
            Err(TableNamingError::NotProcessed(object.joined()))
        } else {
            let schema = object.parts[0].clone();
            let table = object.parts[1].clone();
            Ok(FullTableName(SchemaName(schema), table))
        }
    }

    pub fn as_tuple(&self) -> (r: (&str, &str))
        ensures
            r.0@ == self@.0,
            r.1@ == self@.1,
    {
        (self.0.as_str(), self.1.as_str())
    }

    /// The full dotted name, as error reports print it.
    pub fn full_name(&self) -> (r: String)
        ensures
            r@ == spec_full_name(self@.0, self@.1),
    {
        let mut out = self.0.0.clone();
        out.append(".");
        out.append(self.1.as_str());
        out
    }

    pub fn schema_name(&self) -> (r: &SchemaName)
        ensures
            r@ == self@.0,
    {
        &self.0
    }

    pub fn table_name(&self) -> (r: &str)
        ensures
            r@ == self@.1,
    {
        self.1.as_str()
    }
}

impl Clone for FullTableName {
    fn clone(&self) -> (r: Self)
        ensures
            r@ == self@,
    {
        FullTableName(self.0.clone(), self.1.clone())
    }
}

/// Failure to build a full table name: wrong number of identifier parts.
#[derive(Debug)]
pub enum TableNamingError {
    /// The identifier had a single part; table names must be qualified.
    Unqualified(String),
    /// The identifier had no part, or more than two.
    NotProcessed(String),
}

pub open spec fn spec_unqualified_message(text: Seq<char>) -> Seq<char> {
    "unsupported table name '"@ + text + "'. All table names must be qualified"@
}

pub open spec fn spec_not_processed_message(text: Seq<char>) -> Seq<char> {
    "unable to process table name '"@ + text + "'"@
}

impl TableNamingError {
    /// The user-facing text of the error.
    pub fn message(&self) -> (r: String)
        ensures
            self matches TableNamingError::Unqualified(t) ==> r@ == spec_unqualified_message(t@),
            self matches TableNamingError::NotProcessed(t) ==> r@ == spec_not_processed_message(
                t@,
            ),
    {
        match self {
            TableNamingError::Unqualified(t) => {
                let mut out = String::from_str("unsupported table name '");
                out.append(t.as_str());
                out.append("'. All table names must be qualified");
                out
            },
            TableNamingError::NotProcessed(t) => {
                let mut out = String::from_str("unable to process table name '");
                out.append(t.as_str());
                out.append("'");
                out
            },
        }
    }
}

/// Character-wise string equality, decided over the views.
pub fn str_eq(a: &str, b: &str) -> (r: bool)
    ensures
        r == (a@ == b@),
{
    let n = a.unicode_len();
    let m = b.unicode_len();
    if n != m {
        return false;
    }
    let mut i: usize = 0;
    while i < n
        invariant
            0 <= i <= n,
            n == a@.len(),
            n == b@.len(),
            forall|j: int| 0 <= j < i ==> a@[j] == b@[j],
        decreases n - i,
    {
        if a.get_char(i) != b.get_char(i) {
            return false;
        }
        i = i + 1;
    }
    proof {
        assert(a@ =~= b@);
    }
    true
}

} // verus!
