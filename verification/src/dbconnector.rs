use vstd::prelude::*;

verus! {

/// The mathematical value of a [`Column`].
pub struct ColumnView {
    pub name: Seq<char>,
    pub data_type: Seq<char>,
}

/// The mathematical value of an [`Entity`].
pub struct EntityView {
    pub schema: Seq<char>,
    pub name: Seq<char>,
    pub columns: Seq<ColumnView>,
    pub exists: bool,
}

/// Login data of the database that a repository follows.
pub struct Credentials {
    pub name: String,
    pub password: String,
    pub url: String,
    pub dbname: String,
}

/// A column of a table: its name and its SQL data type.
#[derive(Debug, Hash)]
pub struct Column {
    pub name: String,
    pub data_type: String,
}

/// A table of the database: schema, name, columns in order, and whether it
/// still exists (`false` marks a table staged for removal).
#[derive(Debug, Hash)]
pub struct Entity {
    pub schema: String,
    pub name: String,
    pub columns: Vec<Column>,
    pub exists: bool,
}

impl View for Column {
    type V = ColumnView;

    open spec fn view(&self) -> ColumnView {
        ColumnView { name: self.name@, data_type: self.data_type@ }
    }
}

/// The views of a sequence of columns.
pub open spec fn column_views(s: Seq<Column>) -> Seq<ColumnView> {
    s.map_values(|c: Column| c@)
}

impl View for Entity {
    type V = EntityView;

    open spec fn view(&self) -> EntityView {
        EntityView {
            schema: self.schema@,
            name: self.name@,
            columns: column_views(self.columns@),
            exists: self.exists,
        }
    }
}

/// The views of a sequence of entities.
pub open spec fn entity_views(s: Seq<Entity>) -> Seq<EntityView> {
    s.map_values(|e: Entity| e@)
}

/// Two entities are the same table definition: same schema, same name and
/// the same columns in the same order. Whether the table exists is not
/// compared.
pub open spec fn same_entity(a: EntityView, b: EntityView) -> bool {
    &&& a.schema == b.schema
    &&& a.name == b.name
    &&& a.columns == b.columns
}

/// `e` is named `schema.name`.
pub open spec fn has_key(e: EntityView, schema: Seq<char>, name: Seq<char>) -> bool {
    e.schema == schema && e.name == name
}

impl PartialEq for Column {
    fn eq(&self, other: &Self) -> (r: bool) {
        self.data_type == other.data_type && self.name == other.name
    }
}

impl vstd::std_specs::cmp::PartialEqSpecImpl for Column {
    open spec fn obeys_eq_spec() -> bool {
        true
    }

    open spec fn eq_spec(&self, other: &Self) -> bool {
        self@ == other@
    }
}

impl PartialEq for Entity {
    fn eq(&self, other: &Self) -> (r: bool) {
        self.schema == other.schema && self.name == other.name && columns_equal(
            &self.columns,
            &other.columns,
        )
    }
}

impl vstd::std_specs::cmp::PartialEqSpecImpl for Entity {
    open spec fn obeys_eq_spec() -> bool {
        true
    }

    open spec fn eq_spec(&self, other: &Self) -> bool {
        same_entity(self@, other@)
    }
}

/// Compares two column lists element by element.
pub fn columns_equal(a: &Vec<Column>, b: &Vec<Column>) -> (r: bool)
    ensures
        r == (column_views(a@) == column_views(b@)),
{
    if a.len() != b.len() {
        assert(column_views(a@).len() != column_views(b@).len());
        return false;
    }
    let mut i: usize = 0;
    while i < a.len()
        invariant
            a.len() == b.len(),
            i <= a.len(),
            forall|j: int| 0 <= j < i ==> a@[j]@ == #[trigger] b@[j]@,
        decreases a.len() - i,
    {
        if !(a[i] == b[i]) {
            assert(column_views(a@)[i as int] != column_views(b@)[i as int]);
            return false;
        }
        i = i + 1;
    }
    assert(column_views(a@) =~= column_views(b@));
    true
}

impl Clone for Column {
    fn clone(&self) -> (r: Self)
        ensures
            r@ == self@,
    {
        Column { name: self.name.clone(), data_type: self.data_type.clone() }
    }
}

/// Copies a column list, element by element.
pub fn clone_columns(v: &Vec<Column>) -> (r: Vec<Column>)
    ensures
        column_views(r@) == column_views(v@),
{
    let mut r: Vec<Column> = Vec::new();
    let mut i: usize = 0;
    while i < v.len()
        invariant
            i <= v.len(),
            r.len() == i,
            forall|j: int| 0 <= j < i ==> #[trigger] r@[j]@ == v@[j]@,
        decreases v.len() - i,
    {
        r.push(v[i].clone());
        i = i + 1;
    }
    assert(column_views(r@) =~= column_views(v@));
    r
}

impl Clone for Entity {
    fn clone(&self) -> (r: Self)
        ensures
            r@ == self@,
    {
        Entity {
            schema: self.schema.clone(),
            name: self.name.clone(),
            columns: clone_columns(&self.columns),
            exists: self.exists,
        }
    }
}

/// The connection URL `postgresql://<name>:<password>@<url>/<dbname>`.
pub open spec fn connection_url(
    name: Seq<char>,
    password: Seq<char>,
    url: Seq<char>,
    dbname: Seq<char>,
) -> Seq<char> {
    "postgresql://"@ + name + ":"@ + password + "@"@ + url + "/"@ + dbname
}

impl Credentials {
    /// The URL under which the database of these credentials is reached.
    pub fn connection_string(&self) -> (r: String)
        ensures
            r@ == connection_url(self.name@, self.password@, self.url@, self.dbname@),
    {
        let mut r = String::from_str("postgresql://");
        r.append(self.name.as_str());
        r.append(":");
        r.append(self.password.as_str());
        r.append("@");
        r.append(self.url.as_str());
        r.append("/");
        r.append(self.dbname.as_str());
        r
    }
}

} // verus!
