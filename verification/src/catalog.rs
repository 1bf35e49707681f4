//! The catalog and row storage façade: schema and table metadata plus
//! key-value row storage, held in memory.
//!
//! Identifiers are unique and never reused while their referents live;
//! column order is fixed once a table is created; every stored row key
//! is the eight-byte big-endian image of a table-scoped monotonically
//! increasing counter, so keys are strictly increasing and never
//! collide for the table's lifetime; every stored row value is a
//! packed encoding that decodes under the table's column types.

use vstd::prelude::*;

use crate::datum::{be_bytes, be_value, key_bytes, lemma_be_bytes_len, lemma_be_roundtrip, lemma_pow256_8, spec_decode_row, Binary};
use crate::names::{str_eq, FullTableName, SchemaName};
use crate::types::SqlType;

verus! {

/// One column of a table: its name, declared type and position-fixed
/// place in the defining list.
#[derive(Debug)]
pub struct ColumnDefinition {
    pub name: String,
    pub sql_type: SqlType,
}

impl View for ColumnDefinition {
    type V = (Seq<char>, SqlType);

    open spec fn view(&self) -> (Seq<char>, SqlType) {
        (self.name@, self.sql_type)
    }
}

impl Clone for ColumnDefinition {
    fn clone(&self) -> (r: Self)
        ensures
            r@ == self@,
    {
        ColumnDefinition { name: self.name.clone(), sql_type: self.sql_type }
    }
}

impl ColumnDefinition {
    pub fn new(name: String, sql_type: SqlType) -> (r: ColumnDefinition)
        ensures
            r@ == (name@, sql_type),
    {
        ColumnDefinition { name, sql_type }
    }

    /// Whether this column answers to the given name.
    pub fn has_name(&self, name: &str) -> (r: bool)
        ensures
            r == (self@.0 == name@),
    {
        str_eq(self.name.as_str(), name)
    }
}

/// Identifies a schema by its catalog-assigned number.
#[derive(Debug)]
pub struct SchemaId(u64);

impl View for SchemaId {
    type V = u64;

    closed spec fn view(&self) -> u64 {
        self.0
    }
}

impl Clone for SchemaId {
    fn clone(&self) -> (r: Self)
        ensures
            r@ == self@,
    {
        SchemaId(self.0)
    }
}

impl SchemaId {
    pub fn new(id: u64) -> (r: SchemaId)
        ensures
            r@ == id,
    {
        SchemaId(id)
    }

    pub fn as_ref(&self) -> (r: &u64)
        ensures
            r == self@,
    {
        &self.0
    }
}

/// Identifies a table by its schema's number and a per-schema sequence
/// number.
#[derive(Debug)]
pub struct TableId((u64, u64));

impl View for TableId {
    type V = (u64, u64);

    closed spec fn view(&self) -> (u64, u64) {
        self.0
    }
}

impl Clone for TableId {
    fn clone(&self) -> (r: Self)
        ensures
            r@ == self@,
    {
        TableId((self.0.0, self.0.1))
    }
}

impl TableId {
    pub fn new(pair: (u64, u64)) -> (r: TableId)
        ensures
            r@ == pair,
    {
        TableId(pair)
    }

    pub fn as_ref(&self) -> (r: &(u64, u64))
        ensures
            r == self@,
    {
        &self.0
    }
}

/// How a schema drop treats dependent objects.
#[derive(Clone, Copy, Debug, PartialEq, Eq, Structural)]
pub enum DropStrategy {
    /// Drop the schema's tables along with it.
    Cascade,
    /// Refuse the drop while the schema still holds tables.
    Restrict,
}

/// Why a schema drop was refused.
#[derive(Clone, Copy, Debug, PartialEq, Eq, Structural)]
pub enum DropSchemaError {
    DoesNotExist,
    HasDependentObjects,
    CatalogDoesNotExist,
}

/// A catalog operation that could not be carried out.
#[derive(Clone, Copy, Debug, PartialEq, Eq, Structural)]
pub enum StorageError {
    SchemaAlreadyExists,
    SchemaDoesNotExist,
    TableAlreadyExists,
    TableDoesNotExist,
    /// A catalog counter has no numbers left.
    IdsExhausted,
}

/// The ghost image of a schema entry.
pub struct SchemaV {
    pub id: u64,
    pub name: Seq<char>,
    pub next_table: u64,
}

/// The ghost image of a table entry.
pub struct TableV {
    pub schema_id: u64,
    pub table_id: u64,
    pub name: Seq<char>,
    pub columns: Seq<(Seq<char>, SqlType)>,
    pub next_key: u64,
    pub rows: Seq<(Seq<u8>, Seq<u8>)>,
}

/// The ghost image of the whole catalog.
pub struct CatalogV {
    pub next_schema: u64,
    pub schemas: Seq<SchemaV>,
    pub tables: Seq<TableV>,
}

/// The declared types of a column list, in order.
pub open spec fn col_types(cols: Seq<(Seq<char>, SqlType)>) -> Seq<SqlType> {
    cols.map_values(|c: (Seq<char>, SqlType)| c.1)
}

/// The id of the first schema of the given name, if any.
pub open spec fn find_schema(schemas: Seq<SchemaV>, name: Seq<char>) -> Option<u64>
    decreases schemas.len(),
{
    if schemas.len() == 0 {
        None
    } else if schemas[0].name == name {
        Some(schemas[0].id)
    } else {
        find_schema(schemas.drop_first(), name)
    }
}

/// The position of the schema with the given id, or -1.
pub open spec fn schema_pos(schemas: Seq<SchemaV>, id: u64) -> int
    decreases schemas.len(),
{
    if schemas.len() == 0 {
        -1
    } else if schemas[0].id == id {
        0
    } else {
        let r = schema_pos(schemas.drop_first(), id);
        if r < 0 {
            -1
        } else {
            r + 1
        }
    }
}

/// The id of the first table of the given name in the given schema.
pub open spec fn find_table(tables: Seq<TableV>, sid: u64, name: Seq<char>) -> Option<u64>
    decreases tables.len(),
{
    if tables.len() == 0 {
        None
    } else if tables[0].schema_id == sid && tables[0].name == name {
        Some(tables[0].table_id)
    } else {
        find_table(tables.drop_first(), sid, name)
    }
}

/// The position of the table with the given id pair, or -1.
pub open spec fn table_pos(tables: Seq<TableV>, sid: u64, tid: u64) -> int
    decreases tables.len(),
{
    if tables.len() == 0 {
        -1
    } else if tables[0].schema_id == sid && tables[0].table_id == tid {
        0
    } else {
        let r = table_pos(tables.drop_first(), sid, tid);
        if r < 0 {
            -1
        } else {
            r + 1
        }
    }
}

/// Whether any schema carries the given id.
pub open spec fn has_schema_id(schemas: Seq<SchemaV>, sid: u64) -> bool {
    exists|i: int| 0 <= i < schemas.len() && #[trigger] schemas[i].id == sid
}

/// Whether any table belongs to the schema with the given id.
pub open spec fn schema_has_tables(tables: Seq<TableV>, sid: u64) -> bool {
    exists|i: int| 0 <= i < tables.len() && #[trigger] tables[i].schema_id == sid
}

/// The integrity of one table's stored rows: keys are eight bytes,
/// strictly increasing and below the table's counter, and every value
/// decodes under the table's column types.
pub open spec fn table_wf(t: TableV) -> bool {
    &&& forall|i: int, j: int|
        0 <= i < j < t.rows.len() ==> be_value(#[trigger] t.rows[i].0) < be_value(
            #[trigger] t.rows[j].0,
        )
    &&& forall|i: int|
        0 <= i < t.rows.len() ==> (#[trigger] t.rows[i]).0.len() == 8 && 0 <= be_value(
            t.rows[i].0,
        ) < t.next_key
    &&& forall|i: int|
        0 <= i < t.rows.len() ==> spec_decode_row(
            (#[trigger] t.rows[i]).1,
            col_types(t.columns),
        ) is Some
}

/// The integrity of the whole catalog.
pub open spec fn catalog_wf(c: CatalogV) -> bool {
    &&& forall|i: int, j: int|
        0 <= i < j < c.schemas.len() ==> (#[trigger] c.schemas[i]).id != (
        #[trigger] c.schemas[j]).id && c.schemas[i].name != c.schemas[j].name
    &&& forall|i: int| 0 <= i < c.schemas.len() ==> (#[trigger] c.schemas[i]).id < c.next_schema
    &&& forall|i: int, j: int|
        0 <= i < j < c.tables.len() ==> !((#[trigger] c.tables[i]).schema_id == (
        #[trigger] c.tables[j]).schema_id && c.tables[i].table_id == c.tables[j].table_id) && !(
        c.tables[i].schema_id == c.tables[j].schema_id && c.tables[i].name == c.tables[j].name)
    &&& forall|i: int|
        0 <= i < c.tables.len() ==> has_schema_id(c.schemas, (#[trigger] c.tables[i]).schema_id)
    &&& forall|ti: int, si: int|
        0 <= ti < c.tables.len() && 0 <= si < c.schemas.len() && (#[trigger] c.tables[ti]).schema_id
            == (#[trigger] c.schemas[si]).id ==> c.tables[ti].table_id < c.schemas[si].next_table
    &&& forall|i: int| 0 <= i < c.tables.len() ==> table_wf(#[trigger] c.tables[i])
}

proof fn lemma_find_schema(schemas: Seq<SchemaV>, name: Seq<char>)
    ensures
        find_schema(schemas, name) is None <==> forall|i: int|
            0 <= i < schemas.len() ==> (#[trigger] schemas[i]).name != name,
        find_schema(schemas, name) matches Some(id) ==> exists|i: int|
            0 <= i < schemas.len() && (#[trigger] schemas[i]).name == name && schemas[i].id == id,
    decreases schemas.len(),
{
    if schemas.len() > 0 {
        lemma_find_schema(schemas.drop_first(), name);
        if schemas[0].name != name && find_schema(schemas.drop_first(), name) is None {
            assert forall|i: int| 0 <= i < schemas.len() implies (#[trigger] schemas[i]).name
                != name by {
                if i >= 1 {
                    assert(schemas.drop_first()[i - 1] == schemas[i]);
                }
            }
        }
        if forall|i: int| 0 <= i < schemas.len() ==> (#[trigger] schemas[i]).name != name {
            assert forall|i: int|
                0 <= i < schemas.drop_first().len() implies (
            #[trigger] schemas.drop_first()[i]).name != name by {
                assert(schemas.drop_first()[i] == schemas[i + 1]);
            }
        }
        if find_schema(schemas, name) is Some && schemas[0].name != name {
            let w = choose|i: int|
                0 <= i < schemas.drop_first().len() && (#[trigger] schemas.drop_first()[i]).name
                    == name && schemas.drop_first()[i].id == find_schema(schemas, name)->Some_0;
            assert(schemas[w + 1] == schemas.drop_first()[w]);
        }
    }
}

proof fn lemma_schema_pos(schemas: Seq<SchemaV>, id: u64)
    ensures
        schema_pos(schemas, id) < 0 <==> !has_schema_id(schemas, id),
        schema_pos(schemas, id) >= 0 ==> schema_pos(schemas, id) < schemas.len() && schemas[
            schema_pos(schemas, id)
        ].id == id,
    decreases schemas.len(),
{
    if schemas.len() > 0 {
        lemma_schema_pos(schemas.drop_first(), id);
        if schemas[0].id != id && schema_pos(schemas.drop_first(), id) < 0 {
            assert forall|i: int| 0 <= i < schemas.len() implies (#[trigger] schemas[i]).id
                != id by {
                if i >= 1 {
                    assert(schemas.drop_first()[i - 1] == schemas[i]);
                }
            }
        }
        if has_schema_id(schemas, id) && schemas[0].id != id {
            let w = choose|i: int| 0 <= i < schemas.len() && #[trigger] schemas[i].id == id;
            assert(schemas.drop_first()[w - 1] == schemas[w]);
            assert(has_schema_id(schemas.drop_first(), id));
        }
        if schema_pos(schemas, id) >= 0 && schemas[0].id != id {
            assert(schemas[schema_pos(schemas, id)] == schemas.drop_first()[schema_pos(
                schemas.drop_first(),
                id,
            )]);
        }
    }
}

proof fn lemma_find_table(tables: Seq<TableV>, sid: u64, name: Seq<char>)
    ensures
        find_table(tables, sid, name) is None <==> forall|i: int|
            0 <= i < tables.len() ==> !((#[trigger] tables[i]).schema_id == sid && tables[i].name
                == name),
        find_table(tables, sid, name) matches Some(tid) ==> exists|i: int|
            0 <= i < tables.len() && (#[trigger] tables[i]).schema_id == sid && tables[i].name
                == name && tables[i].table_id == tid,
    decreases tables.len(),
{
    if tables.len() > 0 {
        lemma_find_table(tables.drop_first(), sid, name);
        let head_match = tables[0].schema_id == sid && tables[0].name == name;
        if !head_match && find_table(tables.drop_first(), sid, name) is None {
            assert forall|i: int| 0 <= i < tables.len() implies !((#[trigger] tables[i]).schema_id
                == sid && tables[i].name == name) by {
                if i >= 1 {
                    assert(tables.drop_first()[i - 1] == tables[i]);
                }
            }
        }
        if forall|i: int|
            0 <= i < tables.len() ==> !((#[trigger] tables[i]).schema_id == sid && tables[i].name
                == name) {
            assert forall|i: int| 0 <= i < tables.drop_first().len() implies !((
            #[trigger] tables.drop_first()[i]).schema_id == sid && tables.drop_first()[i].name
                == name) by {
                assert(tables.drop_first()[i] == tables[i + 1]);
            }
        }
        if find_table(tables, sid, name) is Some && !head_match {
            let w = choose|i: int|
                0 <= i < tables.drop_first().len() && (#[trigger] tables.drop_first()[i]).schema_id
                    == sid && tables.drop_first()[i].name == name
                    && tables.drop_first()[i].table_id == find_table(tables, sid, name)->Some_0;
            assert(tables[w + 1] == tables.drop_first()[w]);
        }
    }
}

proof fn lemma_table_pos(tables: Seq<TableV>, sid: u64, tid: u64)
    ensures
        table_pos(tables, sid, tid) < 0 <==> forall|i: int|
            0 <= i < tables.len() ==> !((#[trigger] tables[i]).schema_id == sid
                && tables[i].table_id == tid),
        table_pos(tables, sid, tid) >= 0 ==> table_pos(tables, sid, tid) < tables.len() && tables[
            table_pos(tables, sid, tid)
        ].schema_id == sid && tables[table_pos(tables, sid, tid)].table_id == tid,
    decreases tables.len(),
{
    if tables.len() > 0 {
        lemma_table_pos(tables.drop_first(), sid, tid);
        let head_match = tables[0].schema_id == sid && tables[0].table_id == tid;
        if !head_match && table_pos(tables.drop_first(), sid, tid) < 0 {
            assert forall|i: int| 0 <= i < tables.len() implies !((#[trigger] tables[i]).schema_id
                == sid && tables[i].table_id == tid) by {
                if i >= 1 {
                    assert(tables.drop_first()[i - 1] == tables[i]);
                }
            }
        }
        if forall|i: int|
            0 <= i < tables.len() ==> !((#[trigger] tables[i]).schema_id == sid
                && tables[i].table_id == tid) {
            assert forall|i: int| 0 <= i < tables.drop_first().len() implies !((
            #[trigger] tables.drop_first()[i]).schema_id == sid && tables.drop_first()[i].table_id
                == tid) by {
                assert(tables.drop_first()[i] == tables[i + 1]);
            }
        }
        if table_pos(tables, sid, tid) >= 0 && !head_match {
            assert(tables[table_pos(tables, sid, tid)] == tables.drop_first()[table_pos(
                tables.drop_first(),
                sid,
                tid,
            )]);
        }
    }
}

struct SchemaEntry {
    id: u64,
    name: String,
    next_table: u64,
}

impl View for SchemaEntry {
    type V = SchemaV;

    closed spec fn view(&self) -> SchemaV {
        SchemaV { id: self.id, name: self.name@, next_table: self.next_table }
    }
}

struct TableEntry {
    schema_id: u64,
    table_id: u64,
    name: String,
    columns: Vec<ColumnDefinition>,
    next_key: u64,
    rows: Vec<(Binary, Binary)>,
}

impl View for TableEntry {
    type V = TableV;

    closed spec fn view(&self) -> TableV {
        TableV {
            schema_id: self.schema_id,
            table_id: self.table_id,
            name: self.name@,
            columns: self.columns@.map_values(|c: ColumnDefinition| c@),
            next_key: self.next_key,
            rows: self.rows@.map_values(|r: (Binary, Binary)| (r.0@, r.1@)),
        }
    }
}

/// The in-memory catalog and row store.
pub struct Catalog {
    next_schema: u64,
    schemas: Vec<SchemaEntry>,
    tables: Vec<TableEntry>,
}

impl View for Catalog {
    type V = CatalogV;

    closed spec fn view(&self) -> CatalogV {
        CatalogV {
            next_schema: self.next_schema,
            schemas: self.schemas@.map_values(|s: SchemaEntry| s@),
            tables: self.tables@.map_values(|t: TableEntry| t@),
        }
    }
}

impl Catalog {
    /// An empty catalog.
    pub fn new() -> (r: Catalog)
        ensures
            catalog_wf(r@),
            r@.schemas.len() == 0,
            r@.tables.len() == 0,
            r@.next_schema == 0,
    {
        Catalog { next_schema: 0, schemas: Vec::new(), tables: Vec::new() }
    }

    /// Looks a schema up by name.
    pub fn schema_exists(&self, name: &SchemaName) -> (r: Option<SchemaId>)
        ensures
            match r {
                Some(id) => find_schema(self@.schemas, name@) == Some(id@),
                None => find_schema(self@.schemas, name@) is None,
            },
    {
        let n = self.schemas.len();
        proof {
            assert(self@.schemas.skip(0) =~= self@.schemas);
        }
        let mut i: usize = 0;
        while i < n
            invariant
                0 <= i <= n,
                n == self@.schemas.len(),
                self@.schemas.len() == self.schemas@.len(),
                find_schema(self@.schemas, name@) == find_schema(
                    self@.schemas.skip(i as int),
                    name@,
                ),
            decreases n - i,
        {
            proof {
                assert(self@.schemas.skip(i as int)[0] == self@.schemas[i as int]);
                assert(self@.schemas.skip(i as int).drop_first() =~= self@.schemas.skip(i + 1));
            }
            if str_eq(self.schemas[i].name.as_str(), name.as_str()) {
                return Some(SchemaId(self.schemas[i].id));
            }
            i = i + 1;
        }
        proof {
            assert(self@.schemas.skip(n as int) =~= Seq::<SchemaV>::empty());
        }
        None
    }

    /// Creates a schema under a fresh id; refuses a name already in use.
    pub fn create_schema(&mut self, name: &SchemaName) -> (r: Result<SchemaId, StorageError>)
        requires
            catalog_wf(old(self)@),
        ensures
            catalog_wf(final (self)@),
            match r {
                Ok(id) => {
                    &&& find_schema(old(self)@.schemas, name@) is None
                    &&& old(self)@.next_schema < u64::MAX
                    &&& id@ == old(self)@.next_schema
                    &&& final (self)@.schemas == old(self)@.schemas.push(
                        SchemaV { id: id@, name: name@, next_table: 0 },
                    )
                    &&& final (self)@.next_schema == old(self)@.next_schema + 1
                    &&& final (self)@.tables == old(self)@.tables
                },
                Err(StorageError::SchemaAlreadyExists) => find_schema(
                    old(self)@.schemas,
                    name@,
                ) is Some && final (self)@ == old(self)@,
                Err(StorageError::IdsExhausted) => find_schema(old(self)@.schemas, name@) is None
                    && old(self)@.next_schema == u64::MAX && final (self)@ == old(self)@,
                _ => false,
            },
    {
        if self.schema_exists(name).is_some() {
            return Err(StorageError::SchemaAlreadyExists);
        }
        if self.next_schema == u64::MAX {
            return Err(StorageError::IdsExhausted);
        }
        let id = self.next_schema;
        let entry = SchemaEntry { id, name: String::from_str(name.as_str()), next_table: 0 };
        let ghost prev = self@;
        self.schemas.push(entry);
        self.next_schema = id + 1;
        proof {
            assert(self@.schemas =~= prev.schemas.push(
                SchemaV { id, name: name@, next_table: 0 },
            ));
            assert(self@.tables =~= prev.tables);
            lemma_find_schema(prev.schemas, name@);
            let c = self@;
            assert forall|i: int, j: int| 0 <= i < j < c.schemas.len() implies (
            #[trigger] c.schemas[i]).id != (#[trigger] c.schemas[j]).id && c.schemas[i].name
                != c.schemas[j].name by {
                if j == c.schemas.len() - 1 {
                    assert(c.schemas[i] == prev.schemas[i]);
                }
            }
            assert forall|i: int| 0 <= i < c.tables.len() implies has_schema_id(
                c.schemas,
                (#[trigger] c.tables[i]).schema_id,
            ) by {
                assert(has_schema_id(prev.schemas, c.tables[i].schema_id));
                let w = choose|si: int|
                    0 <= si < prev.schemas.len() && #[trigger] prev.schemas[si].id
                        == c.tables[i].schema_id;
                assert(c.schemas[w].id == c.tables[i].schema_id);
            }
        }
        Ok(SchemaId(id))
    }
}

proof fn lemma_filter_cons<A>(x: A, s: Seq<A>, pred: spec_fn(A) -> bool)
    ensures
        (seq![x] + s).filter(pred) == (if pred(x) {
            seq![x]
        } else {
            Seq::<A>::empty()
        }) + s.filter(pred),
    decreases s.len(),
{
    reveal(Seq::filter);
    let t = seq![x] + s;
    if s.len() == 0 {
        assert(t.drop_last() =~= Seq::<A>::empty());
        if pred(x) {
            assert(t.filter(pred) =~= seq![x] + s.filter(pred));
        } else {
            assert(t.filter(pred) =~= Seq::<A>::empty() + s.filter(pred));
        }
    } else {
        lemma_filter_cons(x, s.drop_last(), pred);
        assert(t.drop_last() =~= seq![x] + s.drop_last());
        assert(t.last() == s.last());
        if pred(s.last()) {
            assert(t.filter(pred) == (seq![x] + s.drop_last()).filter(pred).push(s.last()));
            assert(s.filter(pred) == s.drop_last().filter(pred).push(s.last()));
            if pred(x) {
                assert((seq![x] + s.drop_last().filter(pred)).push(s.last()) =~= seq![x] + (
                s.drop_last().filter(pred).push(s.last())));
            } else {
                assert((Seq::<A>::empty() + s.drop_last().filter(pred)).push(s.last()) =~= Seq::<
                    A,
                >::empty() + (s.drop_last().filter(pred).push(s.last())));
            }
        } else {
            assert(t.filter(pred) == (seq![x] + s.drop_last()).filter(pred));
            assert(s.filter(pred) == s.drop_last().filter(pred));
        }
    }
}

proof fn lemma_filter_in_original<A>(s: Seq<A>, pred: spec_fn(A) -> bool)
    ensures
        forall|i: int|
            0 <= i < s.filter(pred).len() ==> exists|j: int|
                0 <= j < s.len() && s[j] == #[trigger] s.filter(pred)[i],
    decreases s.len(),
{
    reveal(Seq::filter);
    if s.len() > 0 {
        lemma_filter_in_original(s.drop_last(), pred);
        let f = s.filter(pred);
        let ff = s.drop_last().filter(pred);
        assert forall|i: int| 0 <= i < f.len() implies exists|j: int|
            0 <= j < s.len() && s[j] == #[trigger] f[i] by {
            if i < ff.len() {
                assert(f[i] == ff[i]);
                let j = choose|j: int| 0 <= j < s.drop_last().len() && s.drop_last()[j] == ff[i];
                assert(s[j] == f[i]);
            } else {
                assert(f[i] == s.last());
                assert(s[s.len() - 1] == f[i]);
            }
        }
    }
}

/// The pairwise distinctness of tables survives dropping one schema's
/// tables.
proof fn lemma_tables_filter_distinct(tables: Seq<TableV>, sid: u64, f: Seq<TableV>)
    requires
        f == tables.filter(|t: TableV| t.schema_id != sid),
        forall|i: int, j: int|
            0 <= i < j < tables.len() ==> !((#[trigger] tables[i]).schema_id == (
            #[trigger] tables[j]).schema_id && tables[i].table_id == tables[j].table_id) && !(
            tables[i].schema_id == tables[j].schema_id && tables[i].name == tables[j].name),
    ensures
        forall|i: int, j: int|
            0 <= i < j < f.len() ==> !((#[trigger] f[i]).schema_id == (#[trigger] f[j]).schema_id
                && f[i].table_id == f[j].table_id) && !(f[i].schema_id == f[j].schema_id
                && f[i].name == f[j].name),
    decreases tables.len(),
{
    reveal(Seq::filter);
    let pred = |t: TableV| t.schema_id != sid;
    if tables.len() > 0 {
        let front = tables.drop_last();
        assert(forall|i: int| 0 <= i < front.len() ==> #[trigger] front[i] == tables[i]);
        let ff = front.filter(pred);
        lemma_tables_filter_distinct(front, sid, ff);
        lemma_filter_in_original(front, pred);
        assert forall|i: int, j: int| 0 <= i < j < f.len() implies !((#[trigger] f[i]).schema_id
            == (#[trigger] f[j]).schema_id && f[i].table_id == f[j].table_id) && !(f[i].schema_id
            == f[j].schema_id && f[i].name == f[j].name) by {
            if j < ff.len() {
                assert(f[i] == ff[i] && f[j] == ff[j]);
            } else {
                assert(f[j] == tables.last());
                assert(f[i] == ff[i]);
                let w = choose|w: int| 0 <= w < front.len() && front[w] == ff[i];
                assert(tables[w] == f[i]);
            }
        }
    }
}

impl Catalog {
    /// Drops the schema with the given id. With `Restrict` the drop is
    /// refused while tables remain; with `Cascade` they go with it.
    pub fn drop_schema(&mut self, id: &SchemaId, strategy: DropStrategy) -> (r: Result<
        Result<(), DropSchemaError>,
        StorageError,
    >)
        requires
            catalog_wf(old(self)@),
        ensures
            catalog_wf(final (self)@),
            match r {
                Ok(Err(DropSchemaError::DoesNotExist)) => !has_schema_id(
                    old(self)@.schemas,
                    id@,
                ) && final (self)@ == old(self)@,
                Ok(Err(DropSchemaError::HasDependentObjects)) => has_schema_id(
                    old(self)@.schemas,
                    id@,
                ) && strategy == DropStrategy::Restrict && schema_has_tables(
                    old(self)@.tables,
                    id@,
                ) && final (self)@ == old(self)@,
                Ok(Ok(())) => {
                    &&& has_schema_id(old(self)@.schemas, id@)
                    &&& (strategy == DropStrategy::Restrict ==> !schema_has_tables(
                        old(self)@.tables,
                        id@,
                    ))
                    &&& final (self)@.schemas == old(self)@.schemas.remove(
                        schema_pos(old(self)@.schemas, id@),
                    )
                    &&& final (self)@.tables == old(self)@.tables.filter(
                        (|t: TableV| t.schema_id != id@),
                    )
                    &&& final (self)@.next_schema == old(self)@.next_schema
                },
                _ => false,
            },
    {
        let ghost prev = self@;
        let sid = *id.as_ref();
        let n = self.schemas.len();
        let mut js: usize = 0;
        let mut found = false;
        while js < n && !found
            invariant
                0 <= js <= n,
                n == self@.schemas.len(),
                self@.schemas.len() == self.schemas@.len(),
                found ==> js < n && self@.schemas[js as int].id == sid,
                !found ==> forall|k: int| 0 <= k < js ==> (#[trigger] self@.schemas[k]).id != sid,
            decreases n - js + if found {
                0int
            } else {
                1int
            },
        {
            if self.schemas[js].id == sid {
                found = true;
            } else {
                js = js + 1;
            }
        }
        if !found {
            proof {
                lemma_schema_pos(prev.schemas, sid);
            }
            return Ok(Err(DropSchemaError::DoesNotExist));
        }
        proof {
            lemma_schema_pos(prev.schemas, sid);
            let p = schema_pos(prev.schemas, sid);
            if p != js as int {
                assert(prev.schemas[p].id == sid && prev.schemas[js as int].id == sid);
            }
            assert(p == js as int);
        }
        let tn = self.tables.len();
        let mut dependents = false;
        let mut k: usize = 0;
        while k < tn && !dependents
            invariant
                0 <= k <= tn,
                tn == self@.tables.len(),
                self@.tables.len() == self.tables@.len(),
                dependents ==> schema_has_tables(self@.tables, sid),
                !dependents ==> forall|m: int|
                    0 <= m < k ==> (#[trigger] self@.tables[m]).schema_id != sid,
            decreases tn - k + if dependents {
                0int
            } else {
                1int
            },
        {
            if self.tables[k].schema_id == sid {
                proof {
                    assert(self@.tables[k as int].schema_id == sid);
                }
                dependents = true;
            } else {
                k = k + 1;
            }
        }
        if dependents && matches!(strategy, DropStrategy::Restrict) {
            return Ok(Err(DropSchemaError::HasDependentObjects));
        }
        proof {
            if !dependents {
                assert(!schema_has_tables(prev.tables, sid));
            }
        }
        self.schemas.remove(js);
        proof {
            assert(self@.schemas =~= prev.schemas.remove(js as int));
        }
        let mut taken: Vec<TableEntry> = Vec::new();
        core::mem::swap(&mut self.tables, &mut taken);
        let ghost allv = taken@.map_values(|t: TableEntry| t@);
        let mut kept: Vec<TableEntry> = Vec::new();
        proof {
            reveal(Seq::filter);
            assert(taken@.map_values(|t: TableEntry| t@) =~= allv.take(taken@.len() as int));
            assert(kept@.map_values(|t: TableEntry| t@) =~= allv.skip(
                taken@.len() as int,
            ).filter((|t: TableV| t.schema_id != sid)));
        }
        while taken.len() > 0
            invariant
                taken@.len() <= allv.len(),
                taken@.map_values(|t: TableEntry| t@) == allv.take(taken@.len() as int),
                kept@.map_values(|t: TableEntry| t@) == allv.skip(taken@.len() as int).filter(
                    (|t: TableV| t.schema_id != sid),
                ),
            decreases taken@.len(),
        {
            let ghost kprev = taken@.len() as int;
            let ghost prev_taken = taken@;
            let popped = taken.pop();
            let t = match popped {
                Some(t) => t,
                None => {
                    proof {
                        assert(false);
                    }
                    return Ok(Ok(()));
                },
            };
            proof {
                assert(t == prev_taken[kprev - 1]);
                assert(prev_taken.map_values(|t: TableEntry| t@)[kprev - 1] == t@);
                assert(allv.take(kprev)[kprev - 1] == allv[kprev - 1]);
                assert(t@ == allv[kprev - 1]);
                assert(taken@ == prev_taken.drop_last());
                assert forall|m: int| #![trigger taken@[m]] 0 <= m < kprev - 1 implies
                    taken@.map_values(|t: TableEntry| t@)[m] == allv.take(kprev - 1)[m] by {
                    assert(taken@[m] == prev_taken[m]);
                    assert(prev_taken.map_values(|t: TableEntry| t@)[m] == allv.take(kprev)[m]);
                }
                assert(taken@.map_values(|t: TableEntry| t@) =~= allv.take(kprev - 1));
                assert(allv.skip(kprev - 1) =~= seq![allv[kprev - 1]] + allv.skip(kprev));
                lemma_filter_cons(
                    allv[kprev - 1],
                    allv.skip(kprev),
                    (|t: TableV| t.schema_id != sid),
                );
            }
            let ghost kept_prev = kept@.map_values(|t: TableEntry| t@);
            if t.schema_id != sid {
                kept.insert(0, t);
                proof {
                    assert(kept@.map_values(|t: TableEntry| t@) =~= seq![allv[kprev - 1]]
                        + kept_prev);
                    assert(seq![allv[kprev - 1]] + allv.skip(kprev).filter(
                        (|t: TableV| t.schema_id != sid),
                    ) =~= allv.skip(kprev - 1).filter((|t: TableV| t.schema_id != sid)));
                }
            } else {
                proof {
                    assert(Seq::<TableV>::empty() + allv.skip(kprev).filter(
                        (|t: TableV| t.schema_id != sid),
                    ) =~= allv.skip(kprev).filter((|t: TableV| t.schema_id != sid)));
                    assert(allv.skip(kprev - 1).filter((|t: TableV| t.schema_id != sid))
                        =~= allv.skip(kprev).filter((|t: TableV| t.schema_id != sid)));
                }
            }
        }
        self.tables = kept;
        proof {
            assert(allv.skip(0) =~= allv);
            assert(allv =~= prev.tables);
            assert(self@.tables == prev.tables.filter((|t: TableV| t.schema_id != sid)));
            let c = self@;
            let f = c.tables;
            let pred = (|t: TableV| t.schema_id != sid);
            lemma_tables_filter_distinct(prev.tables, sid, f);
            lemma_filter_in_original(prev.tables, pred);
            assert forall|i: int| 0 <= i < f.len() implies has_schema_id(
                c.schemas,
                (#[trigger] f[i]).schema_id,
            ) && table_wf(f[i]) by {
                let w = choose|w: int| 0 <= w < prev.tables.len() && prev.tables[w] == f[i];
                assert(table_wf(prev.tables[w]));
                assert(has_schema_id(prev.schemas, f[i].schema_id));
                assert(f[i].schema_id != sid) by {
                    prev.tables.lemma_filter_pred(pred, i);
                }
                let ws = choose|ws: int|
                    0 <= ws < prev.schemas.len() && #[trigger] prev.schemas[ws].id
                        == f[i].schema_id;
                assert(ws != js as int);
                if ws < js as int {
                    assert(c.schemas[ws].id == f[i].schema_id);
                } else {
                    assert(c.schemas[ws - 1] == prev.schemas[ws]);
                }
            }
            assert forall|ti: int, si: int|
                0 <= ti < c.tables.len() && 0 <= si < c.schemas.len() && (
                #[trigger] c.tables[ti]).schema_id == (#[trigger] c.schemas[si]).id implies
                c.tables[ti].table_id < c.schemas[si].next_table by {
                let w = choose|w: int| 0 <= w < prev.tables.len() && prev.tables[w] == f[ti];
                if si < js as int {
                    assert(c.schemas[si] == prev.schemas[si]);
                } else {
                    assert(c.schemas[si] == prev.schemas[si + 1]);
                }
            }
        }
        Ok(Ok(()))
    }
}


impl TableEntry {
    fn has_name_str(&self, name: &str) -> (r: bool)
        ensures
            r == (self@.name == name@),
    {
        str_eq(self.name.as_str(), name)
    }
}

/// How a fully qualified table name resolves against the catalog.
pub enum TableLookup {
    /// No schema of that name exists.
    SchemaMissing,
    /// The schema exists but holds no table of that name.
    TableMissing(SchemaId),
    /// Schema and table both exist.
    Found(TableId),
}

impl Catalog {
    fn locate(&self, sid: u64, tid: u64) -> (r: Option<usize>)
        requires
            catalog_wf(self@),
        ensures
            match r {
                Some(k) => k as int == table_pos(self@.tables, sid, tid) && k < self@.tables.len(),
                None => table_pos(self@.tables, sid, tid) < 0,
            },
    {
        let n = self.tables.len();
        let mut i: usize = 0;
        while i < n
            invariant
                0 <= i <= n,
                n == self@.tables.len(),
                self@.tables.len() == self.tables@.len(),
                catalog_wf(self@),
                forall|k: int|
                    0 <= k < i ==> !((#[trigger] self@.tables[k]).schema_id == sid
                        && self@.tables[k].table_id == tid),
            decreases n - i,
        {
            if self.tables[i].schema_id == sid && self.tables[i].table_id == tid {
                proof {
                    assert(self@.tables[i as int] == self.tables@[i as int]@);
                    lemma_table_pos(self@.tables, sid, tid);
                    let p = table_pos(self@.tables, sid, tid);
                    if p != i as int {
                        assert(self@.tables[p].schema_id == sid && self@.tables[p].table_id
                            == tid);
                        assert(self@.tables[i as int].schema_id == sid
                            && self@.tables[i as int].table_id == tid);
                    }
                }
                return Some(i);
            }
            i = i + 1;
        }
        proof {
            lemma_table_pos(self@.tables, sid, tid);
        }
        None
    }

    /// Creates a table in the given schema under a fresh per-schema id;
    /// refuses a table name already used in that schema.
    pub fn create_table(
        &mut self,
        schema_id: &SchemaId,
        name: &str,
        columns: &Vec<ColumnDefinition>,
    ) -> (r: Result<TableId, StorageError>)
        requires
            catalog_wf(old(self)@),
        ensures
            catalog_wf(final (self)@),
            match r {
                Ok(tid) => {
                    let sp = schema_pos(old(self)@.schemas, schema_id@);
                    &&& sp >= 0
                    &&& find_table(old(self)@.tables, schema_id@, name@) is None
                    &&& old(self)@.schemas[sp].next_table < u64::MAX
                    &&& tid@ == (schema_id@, old(self)@.schemas[sp].next_table)
                    &&& final (self)@.schemas == old(self)@.schemas.update(
                        sp,
                        (SchemaV {
                            next_table: (old(self)@.schemas[sp].next_table + 1) as u64,
                            ..old(self)@.schemas[sp]
                        }),
                    )
                    &&& final (self)@.tables == old(self)@.tables.push(
                        (TableV {
                            schema_id: schema_id@,
                            table_id: old(self)@.schemas[sp].next_table,
                            name: name@,
                            columns: columns@.map_values(|c: ColumnDefinition| c@),
                            next_key: 0,
                            rows: Seq::empty(),
                        }),
                    )
                    &&& final (self)@.next_schema == old(self)@.next_schema
                },
                Err(StorageError::SchemaDoesNotExist) => !has_schema_id(
                    old(self)@.schemas,
                    schema_id@,
                ) && final (self)@ == old(self)@,
                Err(StorageError::TableAlreadyExists) => find_table(
                    old(self)@.tables,
                    schema_id@,
                    name@,
                ) is Some && final (self)@ == old(self)@,
                Err(StorageError::IdsExhausted) => {
                    let sp = schema_pos(old(self)@.schemas, schema_id@);
                    &&& sp >= 0
                    &&& find_table(old(self)@.tables, schema_id@, name@) is None
                    &&& old(self)@.schemas[sp].next_table == u64::MAX
                    &&& final (self)@ == old(self)@
                },
                _ => false,
            },
    {
        let ghost prev = self@;
        let sid = *schema_id.as_ref();
        let n = self.schemas.len();
        let mut js: usize = 0;
        let mut found = false;
        while js < n && !found
            invariant
                0 <= js <= n,
                n == self@.schemas.len(),
                self@.schemas.len() == self.schemas@.len(),
                found ==> js < n && self@.schemas[js as int].id == sid,
                !found ==> forall|k: int| 0 <= k < js ==> (#[trigger] self@.schemas[k]).id != sid,
            decreases n - js + if found {
                0int
            } else {
                1int
            },
        {
            if self.schemas[js].id == sid {
                found = true;
            } else {
                js = js + 1;
            }
        }
        if !found {
            proof {
                lemma_schema_pos(prev.schemas, sid);
            }
            return Err(StorageError::SchemaDoesNotExist);
        }
        proof {
            lemma_schema_pos(prev.schemas, sid);
            let p = schema_pos(prev.schemas, sid);
            if p != js as int {
                assert(prev.schemas[p].id == sid && prev.schemas[js as int].id == sid);
            }
        }
        let tn = self.tables.len();
        proof {
            assert(self@.tables.skip(0) =~= self@.tables);
        }
        let mut i: usize = 0;
        while i < tn
            invariant
                0 <= i <= tn,
                tn == self@.tables.len(),
                self@.tables.len() == self.tables@.len(),
                sid == schema_id@,
                catalog_wf(self@),
                self@ == old(self)@,
                find_table(self@.tables, sid, name@) == find_table(
                    self@.tables.skip(i as int),
                    sid,
                    name@,
                ),
            decreases tn - i,
        {
            proof {
                assert(self@.tables.skip(i as int)[0] == self@.tables[i as int]);
                assert(self@.tables.skip(i as int).drop_first() =~= self@.tables.skip(i + 1));
                assert(self@.tables[i as int] == self.tables@[i as int]@);
            }
            if self.tables[i].schema_id == sid && self.tables[i].has_name_str(name) {
                return Err(StorageError::TableAlreadyExists);
            }
            i = i + 1;
        }
        proof {
            assert(self@.tables.skip(tn as int) =~= Seq::<TableV>::empty());
        }
        let nt = self.schemas[js].next_table;
        if nt == u64::MAX {
            return Err(StorageError::IdsExhausted);
        }
        let mut sentry = SchemaEntry { id: 0, name: String::new(), next_table: 0 };
        self.schemas.set_and_swap(js, &mut sentry);
        let new_schema = SchemaEntry { id: sentry.id, name: sentry.name, next_table: nt + 1 };
        self.schemas.set(js, new_schema);
        let mut cols: Vec<ColumnDefinition> = Vec::new();
        let mut ci: usize = 0;
        while ci < columns.len()
            invariant
                0 <= ci <= columns@.len(),
                cols@.map_values(|c: ColumnDefinition| c@) == columns@.map_values(
                    |c: ColumnDefinition| c@,
                ).take(ci as int),
            decreases columns@.len() - ci,
        {
            let ghost colsprev = cols@.map_values(|c: ColumnDefinition| c@);
            cols.push(columns[ci].clone());
            proof {
                assert(cols@.map_values(|c: ColumnDefinition| c@) =~= colsprev.push(
                    columns@[ci as int]@,
                ));
                assert(cols@.map_values(|c: ColumnDefinition| c@) =~= columns@.map_values(
                    |c: ColumnDefinition| c@,
                ).take(ci + 1));
            }
            ci = ci + 1;
        }
        proof {
            assert(columns@.map_values(|c: ColumnDefinition| c@).take(columns@.len() as int)
                =~= columns@.map_values(|c: ColumnDefinition| c@));
        }
        let entry = TableEntry {
            schema_id: sid,
            table_id: nt,
            name: String::from_str(name),
            columns: cols,
            next_key: 0,
            rows: Vec::new(),
        };
        self.tables.push(entry);
        proof {
            let c = self@;
            let newt = TableV {
                schema_id: sid,
                table_id: nt,
                name: name@,
                columns: columns@.map_values(|cd: ColumnDefinition| cd@),
                next_key: 0,
                rows: Seq::empty(),
            };
            assert(c.schemas =~= prev.schemas.update(
                js as int,
                (SchemaV { next_table: (nt + 1) as u64, ..prev.schemas[js as int] }),
            ));
            assert(self.tables@[self.tables@.len() - 1]@.rows =~= Seq::<(
                Seq<u8>,
                Seq<u8>,
            )>::empty());
            assert(self.tables@[self.tables@.len() - 1]@ == newt);
            assert(c.tables =~= prev.tables.push(newt));
            assert(c.tables[c.tables.len() - 1] == newt);
            assert(c.tables[c.tables.len() - 1].rows.len() == 0);
            lemma_find_table(prev.tables, sid, name@);
            assert forall|a: int, b: int| 0 <= a < b < c.schemas.len() implies (
            #[trigger] c.schemas[a]).id != (#[trigger] c.schemas[b]).id && c.schemas[a].name
                != c.schemas[b].name by {
                assert(prev.schemas[a].id == c.schemas[a].id && prev.schemas[a].name
                    == c.schemas[a].name);
                assert(prev.schemas[b].id == c.schemas[b].id && prev.schemas[b].name
                    == c.schemas[b].name);
            }
            assert forall|a: int, b: int| 0 <= a < b < c.tables.len() implies !((
            #[trigger] c.tables[a]).schema_id == (#[trigger] c.tables[b]).schema_id
                && c.tables[a].table_id == c.tables[b].table_id) && !(c.tables[a].schema_id
                == c.tables[b].schema_id && c.tables[a].name == c.tables[b].name) by {
                if b == c.tables.len() - 1 {
                    assert(c.tables[a] == prev.tables[a]);
                    if prev.tables[a].schema_id == sid {
                        assert(prev.tables[a].table_id < prev.schemas[js as int].next_table);
                    }
                } else {
                    assert(c.tables[a] == prev.tables[a] && c.tables[b] == prev.tables[b]);
                }
            }
            assert forall|ti: int| 0 <= ti < c.tables.len() implies has_schema_id(
                c.schemas,
                (#[trigger] c.tables[ti]).schema_id,
            ) by {
                if ti == c.tables.len() - 1 {
                    assert(c.schemas[js as int].id == sid);
                } else {
                    assert(c.tables[ti] == prev.tables[ti]);
                    let w = choose|w: int|
                        0 <= w < prev.schemas.len() && #[trigger] prev.schemas[w].id
                            == prev.tables[ti].schema_id;
                    assert(c.schemas[w].id == prev.schemas[w].id);
                }
            }
            assert forall|ti: int, si: int|
                0 <= ti < c.tables.len() && 0 <= si < c.schemas.len() && (
                #[trigger] c.tables[ti]).schema_id == (#[trigger] c.schemas[si]).id implies
                c.tables[ti].table_id < c.schemas[si].next_table by {
                if ti == c.tables.len() - 1 {
                    if si != js as int {
                        assert(c.schemas[si].id == prev.schemas[si].id);
                        assert(prev.schemas[si].id != prev.schemas[js as int].id);
                    }
                } else {
                    assert(c.tables[ti] == prev.tables[ti]);
                    if si == js as int {
                        assert(prev.tables[ti].table_id < prev.schemas[js as int].next_table);
                    } else {
                        assert(c.schemas[si] == prev.schemas[si]);
                    }
                }
            }
            assert forall|ti: int| 0 <= ti < c.tables.len() implies table_wf(
                #[trigger] c.tables[ti],
            ) by {
                if ti < c.tables.len() - 1 {
                    assert(c.tables[ti] == prev.tables[ti]);
                }
            }
        }
        Ok(TableId((sid, nt)))
    }

    /// Resolves a fully qualified table name.
    pub fn table_exists(&self, name: &FullTableName) -> (r: TableLookup)
        ensures
            match find_schema(self@.schemas, name@.0) {
                None => r is SchemaMissing,
                Some(sid) => match find_table(self@.tables, sid, name@.1) {
                    None => r matches TableLookup::TableMissing(s) && s@ == sid,
                    Some(tid) => r matches TableLookup::Found(t) && t@ == (sid, tid),
                },
            },
    {
        let sid = match self.schema_exists(name.schema_name()) {
            None => {
                return TableLookup::SchemaMissing;
            },
            Some(s) => *s.as_ref(),
        };
        let tn = self.tables.len();
        proof {
            assert(self@.tables.skip(0) =~= self@.tables);
        }
        let mut i: usize = 0;
        while i < tn
            invariant
                0 <= i <= tn,
                tn == self@.tables.len(),
                self@.tables.len() == self.tables@.len(),
                find_schema(self@.schemas, name@.0) == Some(sid),
                find_table(self@.tables, sid, name@.1) == find_table(
                    self@.tables.skip(i as int),
                    sid,
                    name@.1,
                ),
            decreases tn - i,
        {
            proof {
                assert(self@.tables.skip(i as int)[0] == self@.tables[i as int]);
                assert(self@.tables.skip(i as int).drop_first() =~= self@.tables.skip(i + 1));
                assert(self@.tables[i as int] == self.tables@[i as int]@);
            }
            if self.tables[i].schema_id == sid && self.tables[i].has_name_str(name.table_name()) {
                return TableLookup::Found(TableId((sid, self.tables[i].table_id)));
            }
            i = i + 1;
        }
        proof {
            assert(self@.tables.skip(tn as int) =~= Seq::<TableV>::empty());
        }
        TableLookup::TableMissing(SchemaId(sid))
    }

    /// The column definitions of a table, in their fixed order.
    pub fn table_columns(&self, table_id: &TableId) -> (r: Result<
        &Vec<ColumnDefinition>,
        StorageError,
    >)
        requires
            catalog_wf(self@),
        ensures
            match r {
                Ok(cols) => table_pos(self@.tables, table_id@.0, table_id@.1) >= 0
                    && cols@.map_values(|c: ColumnDefinition| c@) == self@.tables[table_pos(
                    self@.tables,
                    table_id@.0,
                    table_id@.1,
                )].columns,
                Err(StorageError::TableDoesNotExist) => table_pos(
                    self@.tables,
                    table_id@.0,
                    table_id@.1,
                ) < 0,
                _ => false,
            },
    {
        let pair = table_id.as_ref();
        match self.locate(pair.0, pair.1) {
            None => Err(StorageError::TableDoesNotExist),
            Some(k) => Ok(&self.tables[k].columns),
        }
    }

    /// Hands out the table's next row key, advancing the monotonic
    /// per-table counter.
    pub fn next_key_id(&mut self, table_id: &TableId) -> (r: Result<u64, StorageError>)
        requires
            catalog_wf(old(self)@),
        ensures
            catalog_wf(final (self)@),
            match r {
                Ok(k) => {
                    let p = table_pos(old(self)@.tables, table_id@.0, table_id@.1);
                    &&& p >= 0
                    &&& k == old(self)@.tables[p].next_key
                    &&& k < u64::MAX
                    &&& final (self)@.tables == old(self)@.tables.update(
                        p,
                        (TableV { next_key: (k + 1) as u64, ..old(self)@.tables[p] }),
                    )
                    &&& final (self)@.schemas == old(self)@.schemas
                    &&& final (self)@.next_schema == old(self)@.next_schema
                },
                Err(StorageError::TableDoesNotExist) => table_pos(
                    old(self)@.tables,
                    table_id@.0,
                    table_id@.1,
                ) < 0 && final (self)@ == old(self)@,
                Err(StorageError::IdsExhausted) => {
                    let p = table_pos(old(self)@.tables, table_id@.0, table_id@.1);
                    &&& p >= 0
                    &&& old(self)@.tables[p].next_key == u64::MAX
                    &&& final (self)@ == old(self)@
                },
                _ => false,
            },
    {
        let ghost prev = self@;
        let pair = table_id.as_ref();
        let k = match self.locate(pair.0, pair.1) {
            None => {
                return Err(StorageError::TableDoesNotExist);
            },
            Some(k) => k,
        };
        let key = self.tables[k].next_key;
        if key == u64::MAX {
            return Err(StorageError::IdsExhausted);
        }
        let mut entry = TableEntry {
            schema_id: 0,
            table_id: 0,
            name: String::new(),
            columns: Vec::new(),
            next_key: 0,
            rows: Vec::new(),
        };
        self.tables.set_and_swap(k, &mut entry);
        entry.next_key = key + 1;
        self.tables.set(k, entry);
        proof {
            let p = k as int;
            assert(self@.tables =~= prev.tables.update(
                p,
                (TableV { next_key: (key + 1) as u64, ..prev.tables[p] }),
            ));
            assert(self@.schemas =~= prev.schemas);
            let c = self@;
            assert forall|a: int, b: int| 0 <= a < b < c.tables.len() implies !((
            #[trigger] c.tables[a]).schema_id == (#[trigger] c.tables[b]).schema_id
                && c.tables[a].table_id == c.tables[b].table_id) && !(c.tables[a].schema_id
                == c.tables[b].schema_id && c.tables[a].name == c.tables[b].name) by {
                assert(c.tables[a].schema_id == prev.tables[a].schema_id && c.tables[a].table_id
                    == prev.tables[a].table_id && c.tables[a].name == prev.tables[a].name);
                assert(c.tables[b].schema_id == prev.tables[b].schema_id && c.tables[b].table_id
                    == prev.tables[b].table_id && c.tables[b].name == prev.tables[b].name);
            }
            assert forall|ti: int| 0 <= ti < c.tables.len() implies has_schema_id(
                c.schemas,
                (#[trigger] c.tables[ti]).schema_id,
            ) && table_wf(c.tables[ti]) by {
                if ti != p {
                    assert(c.tables[ti] == prev.tables[ti]);
                } else {
                    assert(c.tables[ti].schema_id == prev.tables[ti].schema_id);
                    assert(table_wf(prev.tables[p]));
                    assert(forall|m: int|
                        0 <= m < c.tables[p].rows.len() ==> #[trigger] c.tables[p].rows[m]
                            == prev.tables[p].rows[m]);
                }
            }
            assert forall|ti: int, si: int|
                0 <= ti < c.tables.len() && 0 <= si < c.schemas.len() && (
                #[trigger] c.tables[ti]).schema_id == (#[trigger] c.schemas[si]).id implies
                c.tables[ti].table_id < c.schemas[si].next_table by {
                assert(c.tables[ti].schema_id == prev.tables[ti].schema_id && c.tables[ti].table_id
                    == prev.tables[ti].table_id);
            }
        }
        Ok(key)
    }
}

impl Catalog {
    /// Appends packed rows to a table in one call, assigning each the
    /// table's next monotonically increasing key.
    pub fn write_into(&mut self, table_id: &TableId, values: Vec<Binary>) -> (r: Result<
        usize,
        StorageError,
    >)
        requires
            catalog_wf(old(self)@),
            table_pos(old(self)@.tables, table_id@.0, table_id@.1) >= 0 ==> forall|i: int|
                0 <= i < values@.len() ==> spec_decode_row(
                    (#[trigger] values@[i])@,
                    col_types(
                        old(self)@.tables[table_pos(
                            old(self)@.tables,
                            table_id@.0,
                            table_id@.1,
                        )].columns,
                    ),
                ) is Some,
        ensures
            catalog_wf(final (self)@),
            match r {
                Ok(n) => {
                    let p = table_pos(old(self)@.tables, table_id@.0, table_id@.1);
                    let t = old(self)@.tables[p];
                    &&& p >= 0
                    &&& n == values@.len()
                    &&& t.next_key + n <= u64::MAX
                    &&& final (self)@.tables == old(self)@.tables.update(
                        p,
                        (TableV {
                            next_key: (t.next_key + n) as u64,
                            rows: t.rows + Seq::new(
                                values@.len(),
                                |i: int|
                                    (be_bytes(t.next_key + i, 8), (values@[i])@),
                            ),
                            ..t
                        }),
                    )
                    &&& final (self)@.schemas == old(self)@.schemas
                    &&& final (self)@.next_schema == old(self)@.next_schema
                },
                Err(StorageError::TableDoesNotExist) => table_pos(
                    old(self)@.tables,
                    table_id@.0,
                    table_id@.1,
                ) < 0 && final (self)@ == old(self)@,
                Err(StorageError::IdsExhausted) => {
                    let p = table_pos(old(self)@.tables, table_id@.0, table_id@.1);
                    &&& p >= 0
                    &&& old(self)@.tables[p].next_key + values@.len() > u64::MAX
                    &&& final (self)@ == old(self)@
                },
                _ => false,
            },
    {
        let ghost prev = self@;
        let pair = table_id.as_ref();
        let k = match self.locate(pair.0, pair.1) {
            None => {
                return Err(StorageError::TableDoesNotExist);
            },
            Some(k) => k,
        };
        let n = values.len();
        let base = self.tables[k].next_key;
        if n as u64 > u64::MAX - base {
            return Err(StorageError::IdsExhausted);
        }
        proof {
            assert(self@.tables[k as int] == self.tables@[k as int]@);
        }
        let mut entry = TableEntry {
            schema_id: 0,
            table_id: 0,
            name: String::new(),
            columns: Vec::new(),
            next_key: 0,
            rows: Vec::new(),
        };
        self.tables.set_and_swap(k, &mut entry);
        let ghost told = prev.tables[k as int];
        proof {
            assert(entry@ == told);
        }
        let ghost rows0 = entry.rows@.map_values(|r: (Binary, Binary)| (r.0@, r.1@));
        let mut i: usize = 0;
        while i < n
            invariant
                0 <= i <= n,
                n == values@.len(),
                base == told.next_key,
                base + n <= u64::MAX,
                entry.schema_id == told.schema_id,
                entry.table_id == told.table_id,
                entry.name@ == told.name,
                entry.columns@.map_values(|c: ColumnDefinition| c@) == told.columns,
                rows0 == told.rows,
                entry.rows@.map_values(|r: (Binary, Binary)| (r.0@, r.1@)) == rows0 + Seq::new(
                    i as nat,
                    |m: int| (be_bytes(base + m, 8), (values@[m])@),
                ),
            decreases n - i,
        {
            let ghost rprev = entry.rows@.map_values(|r: (Binary, Binary)| (r.0@, r.1@));
            let key = Binary::with_data(key_bytes(base + (i as u64)));
            let value = values[i].clone();
            entry.rows.push((key, value));
            proof {
                assert(entry.rows@.map_values(|r: (Binary, Binary)| (r.0@, r.1@)) =~= rprev.push(
                    (be_bytes(base + i, 8), (values@[i as int])@),
                ));
                assert(rprev.push((be_bytes(base + i, 8), (values@[i as int])@)) =~= rows0
                    + Seq::new((i + 1) as nat, |m: int| (be_bytes(base + m, 8), (values@[m])@)));
            }
            i = i + 1;
        }
        entry.next_key = base + (n as u64);
        self.tables.set(k, entry);
        proof {
            let p = k as int;
            let newt = TableV {
                next_key: (told.next_key + n) as u64,
                rows: told.rows + Seq::new(
                    values@.len(),
                    |m: int| (be_bytes(told.next_key + m, 8), (values@[m])@),
                ),
                ..told
            };
            assert(rows0 == told.rows);
            assert(self.tables@[p]@.rows =~= newt.rows);
            assert(self.tables@[p]@ == newt);
            assert(self@.tables =~= prev.tables.update(p, newt));
            assert(self@.schemas =~= prev.schemas);
            let c = self@;
            assert forall|a: int, b: int| 0 <= a < b < c.tables.len() implies !((
            #[trigger] c.tables[a]).schema_id == (#[trigger] c.tables[b]).schema_id
                && c.tables[a].table_id == c.tables[b].table_id) && !(c.tables[a].schema_id
                == c.tables[b].schema_id && c.tables[a].name == c.tables[b].name) by {
                assert(c.tables[a].schema_id == prev.tables[a].schema_id && c.tables[a].table_id
                    == prev.tables[a].table_id && c.tables[a].name == prev.tables[a].name);
                assert(c.tables[b].schema_id == prev.tables[b].schema_id && c.tables[b].table_id
                    == prev.tables[b].table_id && c.tables[b].name == prev.tables[b].name);
            }
            assert forall|ti: int| 0 <= ti < c.tables.len() implies has_schema_id(
                c.schemas,
                (#[trigger] c.tables[ti]).schema_id,
            ) && table_wf(c.tables[ti]) by {
                if ti != p {
                    assert(c.tables[ti] == prev.tables[ti]);
                } else {
                    assert(c.tables[p].schema_id == prev.tables[p].schema_id);
                    assert(table_wf(told));
                    let t = c.tables[p];
                    assert(t.columns == told.columns);
                    assert forall|m: int| 0 <= m < t.rows.len() implies (#[trigger] t.rows[m]).0.len()
                        == 8 && 0 <= be_value(t.rows[m].0) < t.next_key && spec_decode_row(
                        t.rows[m].1,
                        col_types(t.columns),
                    ) is Some by {
                        if m < told.rows.len() {
                            assert(t.rows[m] == told.rows[m]);
                        } else {
                            let d = m - told.rows.len();
                            assert(t.rows[m] == (be_bytes(told.next_key + d, 8), (values@[d])@));
                            lemma_be_bytes_len(told.next_key + d, 8);
                            lemma_pow256_8();
                            lemma_be_roundtrip(told.next_key + d, 8);
                        }
                    }
                    assert forall|a: int, b: int| 0 <= a < b < t.rows.len() implies be_value(
                        #[trigger] t.rows[a].0,
                    ) < be_value(#[trigger] t.rows[b].0) by {
                        if b < told.rows.len() {
                            assert(t.rows[a] == told.rows[a] && t.rows[b] == told.rows[b]);
                        } else {
                            let db = b - told.rows.len();
                            assert(t.rows[b] == (be_bytes(told.next_key + db, 8), (values@[db])@));
                            lemma_pow256_8();
                            lemma_be_roundtrip(told.next_key + db, 8);
                            if a < told.rows.len() {
                                assert(t.rows[a] == told.rows[a]);
                                assert(be_value(told.rows[a].0) < told.next_key);
                            } else {
                                let da = a - told.rows.len();
                                assert(t.rows[a] == (be_bytes(told.next_key + da, 8), (
                                values@[da])@));
                                lemma_be_roundtrip(told.next_key + da, 8);
                            }
                        }
                    }
                }
            }
            assert forall|ti: int, si: int|
                0 <= ti < c.tables.len() && 0 <= si < c.schemas.len() && (
                #[trigger] c.tables[ti]).schema_id == (#[trigger] c.schemas[si]).id implies
                c.tables[ti].table_id < c.schemas[si].next_table by {
                assert(c.tables[ti].schema_id == prev.tables[ti].schema_id && c.tables[ti].table_id
                    == prev.tables[ti].table_id);
            }
        }
        Ok(n)
    }

    /// All rows of a table, in key order: a finite, restartable view.
    pub fn read_all(&self, table_id: &TableId) -> (r: Result<&Vec<(Binary, Binary)>, StorageError>)
        requires
            catalog_wf(self@),
        ensures
            match r {
                Ok(rows) => table_pos(self@.tables, table_id@.0, table_id@.1) >= 0
                    && rows@.map_values(|p: (Binary, Binary)| (p.0@, p.1@)) == self@.tables[
                    table_pos(self@.tables, table_id@.0, table_id@.1)].rows,
                Err(StorageError::TableDoesNotExist) => table_pos(
                    self@.tables,
                    table_id@.0,
                    table_id@.1,
                ) < 0,
                _ => false,
            },
    {
        let pair = table_id.as_ref();
        match self.locate(pair.0, pair.1) {
            None => Err(StorageError::TableDoesNotExist),
            Some(k) => Ok(&self.tables[k].rows),
        }
    }

    /// Removes every stored row of a table; the key counter keeps its
    /// value, so keys are never reused.
    pub fn delete_all(&mut self, table_id: &TableId) -> (r: Result<usize, StorageError>)
        requires
            catalog_wf(old(self)@),
        ensures
            catalog_wf(final (self)@),
            match r {
                Ok(n) => {
                    let p = table_pos(old(self)@.tables, table_id@.0, table_id@.1);
                    &&& p >= 0
                    &&& n == old(self)@.tables[p].rows.len()
                    &&& final (self)@.tables == old(self)@.tables.update(
                        p,
                        (TableV { rows: Seq::empty(), ..old(self)@.tables[p] }),
                    )
                    &&& final (self)@.schemas == old(self)@.schemas
                    &&& final (self)@.next_schema == old(self)@.next_schema
                },
                Err(StorageError::TableDoesNotExist) => table_pos(
                    old(self)@.tables,
                    table_id@.0,
                    table_id@.1,
                ) < 0 && final (self)@ == old(self)@,
                _ => false,
            },
    {
        let ghost prev = self@;
        let pair = table_id.as_ref();
        let k = match self.locate(pair.0, pair.1) {
            None => {
                return Err(StorageError::TableDoesNotExist);
            },
            Some(k) => k,
        };
        proof {
            assert(self@.tables[k as int] == self.tables@[k as int]@);
        }
        let n = self.tables[k].rows.len();
        let mut entry = TableEntry {
            schema_id: 0,
            table_id: 0,
            name: String::new(),
            columns: Vec::new(),
            next_key: 0,
            rows: Vec::new(),
        };
        self.tables.set_and_swap(k, &mut entry);
        entry.rows = Vec::new();
        self.tables.set(k, entry);
        proof {
            let p = k as int;
            let newt = TableV { rows: Seq::empty(), ..prev.tables[p] };
            assert(self.tables@[p]@.rows =~= newt.rows);
            assert(self.tables@[p]@ == newt);
            assert(self@.tables =~= prev.tables.update(p, newt));
            assert(self@.schemas =~= prev.schemas);
            let c = self@;
            assert forall|a: int, b: int| 0 <= a < b < c.tables.len() implies !((
            #[trigger] c.tables[a]).schema_id == (#[trigger] c.tables[b]).schema_id
                && c.tables[a].table_id == c.tables[b].table_id) && !(c.tables[a].schema_id
                == c.tables[b].schema_id && c.tables[a].name == c.tables[b].name) by {
                assert(c.tables[a].schema_id == prev.tables[a].schema_id && c.tables[a].table_id
                    == prev.tables[a].table_id && c.tables[a].name == prev.tables[a].name);
                assert(c.tables[b].schema_id == prev.tables[b].schema_id && c.tables[b].table_id
                    == prev.tables[b].table_id && c.tables[b].name == prev.tables[b].name);
            }
            assert forall|ti: int| 0 <= ti < c.tables.len() implies has_schema_id(
                c.schemas,
                (#[trigger] c.tables[ti]).schema_id,
            ) && table_wf(c.tables[ti]) by {
                if ti != p {
                    assert(c.tables[ti] == prev.tables[ti]);
                } else {
                    assert(c.tables[ti].schema_id == prev.tables[ti].schema_id);
                }
            }
            assert forall|ti: int, si: int|
                0 <= ti < c.tables.len() && 0 <= si < c.schemas.len() && (
                #[trigger] c.tables[ti]).schema_id == (#[trigger] c.schemas[si]).id implies
                c.tables[ti].table_id < c.schemas[si].next_table by {
                assert(c.tables[ti].schema_id == prev.tables[ti].schema_id && c.tables[ti].table_id
                    == prev.tables[ti].table_id);
            }
        }
        Ok(n)
    }
}

/// Law: in a well-formed catalog the stored keys of any table are
/// strictly increasing in store order, so N inserts, through one
/// statement or many, yield N strictly increasing keys.
pub proof fn lemma_key_monotonicity(c: CatalogV, ti: int)
    requires
        catalog_wf(c),
        0 <= ti < c.tables.len(),
    ensures
        forall|i: int, j: int|
            0 <= i < j < c.tables[ti].rows.len() ==> be_value(#[trigger] c.tables[ti].rows[i].0)
                < be_value(#[trigger] c.tables[ti].rows[j].0),
{
    assert(table_wf(c.tables[ti]));
}


/// A table found by name stands at a valid position under its id pair.
pub proof fn lemma_found_table_pos(tables: Seq<TableV>, sid: u64, name: Seq<char>)
    requires
        find_table(tables, sid, name) is Some,
    ensures
        0 <= table_pos(tables, sid, find_table(tables, sid, name)->Some_0) < tables.len(),
{
    let tid = find_table(tables, sid, name)->Some_0;
    lemma_find_table(tables, sid, name);
    lemma_table_pos(tables, sid, tid);
    if table_pos(tables, sid, tid) < 0 {
        let w = choose|i: int|
            0 <= i < tables.len() && (#[trigger] tables[i]).schema_id == sid && tables[i].name
                == name && tables[i].table_id == tid;
        assert(!(tables[w].schema_id == sid && tables[w].table_id == tid));
    }
}


/// The first column of the given name, or -1.
pub open spec fn first_col(cols: Seq<(Seq<char>, SqlType)>, name: Seq<char>) -> int
    decreases cols.len(),
{
    if cols.len() == 0 {
        -1
    } else if cols[0].0 == name {
        0
    } else {
        let r = first_col(cols.drop_first(), name);
        if r < 0 {
            -1
        } else {
            r + 1
        }
    }
}

pub proof fn lemma_first_col(cols: Seq<(Seq<char>, SqlType)>, name: Seq<char>)
    ensures
        first_col(cols, name) < 0 <==> forall|i: int|
            0 <= i < cols.len() ==> (#[trigger] cols[i]).0 != name,
        first_col(cols, name) >= 0 ==> first_col(cols, name) < cols.len() && cols[first_col(
            cols,
            name,
        )].0 == name,
    decreases cols.len(),
{
    if cols.len() > 0 {
        lemma_first_col(cols.drop_first(), name);
        if cols[0].0 != name && first_col(cols.drop_first(), name) < 0 {
            assert forall|i: int| 0 <= i < cols.len() implies (#[trigger] cols[i]).0 != name by {
                if i >= 1 {
                    assert(cols.drop_first()[i - 1] == cols[i]);
                }
            }
        }
        if forall|i: int| 0 <= i < cols.len() ==> (#[trigger] cols[i]).0 != name {
            assert forall|i: int| 0 <= i < cols.drop_first().len() implies (
            #[trigger] cols.drop_first()[i]).0 != name by {
                assert(cols.drop_first()[i] == cols[i + 1]);
            }
        }
        if first_col(cols, name) >= 0 && cols[0].0 != name {
            assert(cols[first_col(cols, name)] == cols.drop_first()[first_col(
                cols.drop_first(),
                name,
            )]);
        }
    }
}

/// Position of the first match counts only non-matching names before it.
pub proof fn lemma_first_col_at(cols: Seq<(Seq<char>, SqlType)>, name: Seq<char>, i: int)
    requires
        0 <= i < cols.len(),
        cols[i].0 == name,
        forall|k: int| 0 <= k < i ==> (#[trigger] cols[k]).0 != name,
    ensures
        first_col(cols, name) == i,
    decreases cols.len(),
{
    if i > 0 {
        assert(cols.drop_first()[i - 1] == cols[i]);
        assert forall|k: int| 0 <= k < i - 1 implies (#[trigger] cols.drop_first()[k]).0
            != name by {
            assert(cols.drop_first()[k] == cols[k + 1]);
        }
        lemma_first_col_at(cols.drop_first(), name, i - 1);
    }
}

/// Finds the first column of the given name.
pub fn find_column(cols: &Vec<ColumnDefinition>, name: &str) -> (r: Option<usize>)
    ensures
        match r {
            Some(k) => k as int == first_col(
                cols@.map_values(|c: ColumnDefinition| c@),
                name@,
            ) && k < cols@.len(),
            None => first_col(cols@.map_values(|c: ColumnDefinition| c@), name@) < 0,
        },
{
    let ghost cv = cols@.map_values(|c: ColumnDefinition| c@);
    let n = cols.len();
    let mut i: usize = 0;
    while i < n
        invariant
            0 <= i <= n,
            n == cols@.len(),
            cv == cols@.map_values(|c: ColumnDefinition| c@),
            forall|k: int| 0 <= k < i ==> (#[trigger] cv[k]).0 != name@,
        decreases n - i,
    {
        if cols[i].has_name(name) {
            proof {
                lemma_first_col_at(cv, name@, i as int);
            }
            return Some(i);
        }
        i = i + 1;
    }
    proof {
        lemma_first_col(cv, name@);
    }
    None
}


/// A deep copy of a column list, preserving the ghost image.
pub fn clone_columns(cols: &Vec<ColumnDefinition>) -> (r: Vec<ColumnDefinition>)
    ensures
        r@.map_values(|c: ColumnDefinition| c@) == cols@.map_values(|c: ColumnDefinition| c@),
{
    let mut out: Vec<ColumnDefinition> = Vec::new();
    let mut i: usize = 0;
    while i < cols.len()
        invariant
            0 <= i <= cols@.len(),
            out@.map_values(|c: ColumnDefinition| c@) == cols@.map_values(
                |c: ColumnDefinition| c@,
            ).take(i as int),
        decreases cols@.len() - i,
    {
        let ghost before = out@.map_values(|c: ColumnDefinition| c@);
        out.push(cols[i].clone());
        proof {
            assert(out@.map_values(|c: ColumnDefinition| c@) =~= before.push(cols@[i as int]@));
            assert(out@.map_values(|c: ColumnDefinition| c@) =~= cols@.map_values(
                |c: ColumnDefinition| c@,
            ).take(i + 1));
        }
        i = i + 1;
    }
    proof {
        assert(cols@.map_values(|c: ColumnDefinition| c@).take(cols@.len() as int)
            =~= cols@.map_values(|c: ColumnDefinition| c@));
    }
    out
}


/// A table position never reaches past the table list.
pub proof fn lemma_table_pos_bound(tables: Seq<TableV>, sid: u64, tid: u64)
    ensures
        table_pos(tables, sid, tid) < tables.len(),
{
    lemma_table_pos(tables, sid, tid);
}


/// A schema found by name carries a live id at a valid position.
pub proof fn lemma_find_schema_has_id(schemas: Seq<SchemaV>, name: Seq<char>)
    requires
        find_schema(schemas, name) is Some,
    ensures
        has_schema_id(schemas, find_schema(schemas, name)->Some_0),
        0 <= schema_pos(schemas, find_schema(schemas, name)->Some_0) < schemas.len(),
{
    let id = find_schema(schemas, name)->Some_0;
    lemma_find_schema(schemas, name);
    let w = choose|i: int|
        0 <= i < schemas.len() && (#[trigger] schemas[i]).name == name && schemas[i].id == id;
    assert(schemas[w].id == id);
    lemma_schema_pos(schemas, id);
    if schema_pos(schemas, id) < 0 {
        assert(schemas[w].id != id);
    }
}

} // verus!
