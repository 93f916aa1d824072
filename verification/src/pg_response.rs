//! The answer to one statement of a client session: what kind of statement
//! it was, how many rows it touched, and the rows it returned.

use vstd::prelude::*;

verus! {

/// The kind of a statement.
#[derive(Copy, Clone, Debug, Eq, PartialEq, Structural)]
#[allow(non_camel_case_types)]
pub enum StatementType {
    INSERT,
    DELETE,
    UPDATE,
    SELECT,
    MOVE,
    FETCH,
    COPY,
    EXPLAIN,
    CREATE_TABLE,
    CREATE_MATERIALIZED_VIEW,
    CREATE_SOURCE,
    DROP_TABLE,
    DROP_STREAM,
    ORDER_BY,
    SET_OPTION,
    SHOW_PARAMETERS,
    OTHER,
}

impl StatementType {
    /// The statement reads or changes rows, so that its answer carries a
    /// row count.
    pub open spec fn spec_is_command(&self) -> bool {
        *self == StatementType::INSERT || *self == StatementType::DELETE || *self
            == StatementType::UPDATE || *self == StatementType::MOVE || *self
            == StatementType::COPY || *self == StatementType::FETCH || *self
            == StatementType::SELECT
    }

    /// Whether the statement reads or changes rows.
    #[verifier::when_used_as_spec(spec_is_command)]
    pub fn is_command(&self) -> (r: bool)
        ensures
            r == self.spec_is_command(),
    {
        matches!(
            self,
            StatementType::INSERT
                | StatementType::DELETE
                | StatementType::UPDATE
                | StatementType::MOVE
                | StatementType::COPY
                | StatementType::FETCH
                | StatementType::SELECT
        )
    }

    /// The name of the kind, as it is written in a command tag.
    pub open spec fn spec_name(&self) -> Seq<char> {
        match self {
            StatementType::INSERT => "INSERT"@,
            StatementType::DELETE => "DELETE"@,
            StatementType::UPDATE => "UPDATE"@,
            StatementType::SELECT => "SELECT"@,
            StatementType::MOVE => "MOVE"@,
            StatementType::FETCH => "FETCH"@,
            StatementType::COPY => "COPY"@,
            StatementType::EXPLAIN => "EXPLAIN"@,
            StatementType::CREATE_TABLE => "CREATE_TABLE"@,
            StatementType::CREATE_MATERIALIZED_VIEW => "CREATE_MATERIALIZED_VIEW"@,
            StatementType::CREATE_SOURCE => "CREATE_SOURCE"@,
            StatementType::DROP_TABLE => "DROP_TABLE"@,
            StatementType::DROP_STREAM => "DROP_STREAM"@,
            StatementType::ORDER_BY => "ORDER_BY"@,
            StatementType::SET_OPTION => "SET_OPTION"@,
            StatementType::SHOW_PARAMETERS => "SHOW_PARAMETERS"@,
            StatementType::OTHER => "OTHER"@,
        }
    }

    /// The name of the kind, as text.
    #[allow(clippy::inherent_to_string)]
    pub fn to_string(&self) -> (r: String)
        ensures
            r@ == self.spec_name(),
    {
        let name: &'static str = match self {
            StatementType::INSERT => "INSERT",
            StatementType::DELETE => "DELETE",
            StatementType::UPDATE => "UPDATE",
            StatementType::SELECT => "SELECT",
            StatementType::MOVE => "MOVE",
            StatementType::FETCH => "FETCH",
            StatementType::COPY => "COPY",
            StatementType::EXPLAIN => "EXPLAIN",
            StatementType::CREATE_TABLE => "CREATE_TABLE",
            StatementType::CREATE_MATERIALIZED_VIEW => "CREATE_MATERIALIZED_VIEW",
            StatementType::CREATE_SOURCE => "CREATE_SOURCE",
            StatementType::DROP_TABLE => "DROP_TABLE",
            StatementType::DROP_STREAM => "DROP_STREAM",
            StatementType::ORDER_BY => "ORDER_BY",
            StatementType::SET_OPTION => "SET_OPTION",
            StatementType::SHOW_PARAMETERS => "SHOW_PARAMETERS",
            StatementType::OTHER => "OTHER",
        };
        name.to_owned()
    }
}

/// The type of a column, as the client protocol names it.
#[derive(Copy, Clone, Debug, Eq, PartialEq, Structural)]
pub enum TypeOid {
    Boolean,
    BigInt,
    SmallInt,
    Int,
    Varchar,
}

/// The description of one column of an answer.
#[derive(Clone, Debug, PartialEq, Eq)]
pub struct PgFieldDescriptor {
    name: String,
    type_oid: TypeOid,
}

impl View for PgFieldDescriptor {
    type V = (Seq<char>, TypeOid);

    closed spec fn view(&self) -> (Seq<char>, TypeOid) {
        (self.name@, self.type_oid)
    }
}

impl PgFieldDescriptor {
    /// The description of a column.
    pub fn new(name: String, type_oid: TypeOid) -> (r: Self)
        ensures
            r@ == (name@, type_oid),
    {
        Self { name, type_oid }
    }

    /// The name of the column.
    pub fn get_name(&self) -> (r: &str)
        ensures
            r@ == self@.0,
    {
        self.name.as_str()
    }

    /// The type of the column.
    pub fn get_type_oid(&self) -> (r: TypeOid)
        ensures
            r == self@.1,
    {
        self.type_oid
    }

    /// An owned copy of the description.
    pub fn duplicate(&self) -> (r: Self)
        ensures
            r@ == self@,
    {
        Self { name: self.name.clone(), type_oid: self.type_oid }
    }
}

/// One row of an answer: a text per column, or `None` for a null.
#[derive(Clone, Debug, PartialEq, Eq)]
pub struct PgRow(Vec<Option<String>>);

impl PgRow {
    /// The columns of the row.
    pub closed spec fn columns(&self) -> Seq<Option<String>> {
        self.0@
    }

    /// The row of the given columns.
    pub fn new(row: Vec<Option<String>>) -> (r: Self)
        ensures
            r.columns() == row@,
    {
        Self(row)
    }

    /// The columns of the row.
    pub fn values(&self) -> (r: &[Option<String>])
        ensures
            r@ == self.columns(),
    {
        self.0.as_slice()
    }
}

/// The mathematical value of an answer.
pub struct PgResponseView {
    pub stmt_type: StatementType,
    pub row_cnt: i32,
    pub values: Seq<PgRow>,
    pub row_desc: Seq<(Seq<char>, TypeOid)>,
}

/// The answer to one statement.
pub struct PgResponse {
    stmt_type: StatementType,
    row_cnt: i32,
    values: Vec<PgRow>,
    row_desc: Vec<PgFieldDescriptor>,
}

impl View for PgResponse {
    type V = PgResponseView;

    closed spec fn view(&self) -> PgResponseView {
        PgResponseView {
            stmt_type: self.stmt_type,
            row_cnt: self.row_cnt,
            values: self.values@,
            row_desc: Seq::new(self.row_desc@.len(), |i: int| self.row_desc@[i]@),
        }
    }
}

/// The column descriptions as mathematical values.
pub open spec fn descriptors_view(row_desc: Seq<PgFieldDescriptor>) -> Seq<(Seq<char>, TypeOid)> {
    Seq::new(row_desc.len(), |i: int| row_desc[i]@)
}

impl PgResponse {
    /// The answer made of the given parts.
    pub fn new(
        stmt_type: StatementType,
        row_cnt: i32,
        values: Vec<PgRow>,
        row_desc: Vec<PgFieldDescriptor>,
    ) -> (r: Self)
        ensures
            r@ == (PgResponseView {
                stmt_type,
                row_cnt,
                values: values@,
                row_desc: descriptors_view(row_desc@),
            }),
    {
        Self { stmt_type, row_cnt, values, row_desc }
    }

    /// The kind of the statement.
    pub fn get_stmt_type(&self) -> (r: StatementType)
        ensures
            r == self@.stmt_type,
    {
        self.stmt_type
    }

    /// The number of rows that the statement touched.
    pub fn get_effected_rows_cnt(&self) -> (r: i32)
        ensures
            r == self@.row_cnt,
    {
        self.row_cnt
    }

    /// Whether the statement was a query.
    pub fn is_query(&self) -> (r: bool)
        ensures
            r == (self@.stmt_type == StatementType::SELECT),
    {
        self.stmt_type == StatementType::SELECT
    }

    /// A copy of the column descriptions.
    pub fn get_row_desc(&self) -> (r: Vec<PgFieldDescriptor>)
        ensures
            descriptors_view(r@) == self@.row_desc,
    {
        let mut r: Vec<PgFieldDescriptor> = Vec::new();
        let mut i: usize = 0;
        while i < self.row_desc.len()
            invariant
                i <= self.row_desc@.len(),
                r@.len() == i,
                forall|j: int| 0 <= j < i ==> (#[trigger] r@[j])@ == self.row_desc@[j]@,
            decreases self.row_desc@.len() - i,
        {
            r.push(self.row_desc[i].duplicate());
            i += 1;
        }
        assert(descriptors_view(r@) =~= self@.row_desc);
        r
    }

    /// The rows of the answer, first to last.
    pub fn iter(&self) -> (r: &[PgRow])
        ensures
            r@ == self@.values,
    {
        self.values.as_slice()
    }
}

/// The answer that returns one row with one text column.
impl From<String> for PgResponse {
    fn from(s: String) -> (r: Self)
        ensures
            r@.stmt_type == StatementType::SELECT,
            r@.row_cnt == 1,
            r@.values.len() == 1,
            r@.values[0].columns() == seq![Some(s)],
            r@.row_desc == seq![("varchar"@, TypeOid::Varchar)],
    {
        let mut columns: Vec<Option<String>> = Vec::new();
        columns.push(Some(s));
        let mut values: Vec<PgRow> = Vec::new();
        values.push(PgRow::new(columns));
        let mut row_desc: Vec<PgFieldDescriptor> = Vec::new();
        row_desc.push(PgFieldDescriptor::new("varchar".to_owned(), TypeOid::Varchar));
        let r = PgResponse::new(StatementType::SELECT, 1, values, row_desc);
        assert(r@.row_desc =~= seq![("varchar"@, TypeOid::Varchar)]);
        r
    }
}

impl vstd::std_specs::convert::FromSpecImpl<String> for PgResponse {
    open spec fn obeys_from_spec() -> bool {
        false
    }

    open spec fn from_spec(s: String) -> Self {
        arbitrary()
    }
}

} // verus!
