use vstd::prelude::*;
use crate::error::Error;
use crate::schema::SchemaRecord;
use crate::text::{
    chars_to_string, contains_chars, contains_seq, eq_ignore_case, eq_ignore_case_exec,
    index_of, index_of_exec, last_index_of, last_index_of_exec, lower_chars, lower_spec,
    normalize, normalize_chars, split_char, split_chars, string_chars, subvec, trim_chars,
    trim_spec,
};

verus! {

/// One column of a `CREATE TABLE` statement: its name and the remainder of
/// its definition, both lowered to ASCII lower case.
#[derive(Debug)]
pub struct ColumnDefinition {
    pub name: String,
    pub type_def: String,
}

/// The mathematical model of a column definition.
pub struct ColDefM {
    pub name: Seq<char>,
    pub type_def: Seq<char>,
}

impl View for ColumnDefinition {
    type V = ColDefM;

    open spec fn view(&self) -> ColDefM {
        ColDefM { name: self.name@, type_def: self.type_def@ }
    }
}

impl DeepView for ColumnDefinition {
    type V = ColDefM;

    open spec fn deep_view(&self) -> ColDefM {
        self.view()
    }
}

/// The column definition read from one comma-separated piece of a column
/// list: after trimming, the text before the first space is the name and
/// the text after it is the type clause, both lowered.
pub open spec fn col_def_of(piece: Seq<char>) -> ColDefM {
    let t = trim_spec(piece);
    let i = index_of(t, ' ');
    let name = t.take(i);
    let rest = if i < t.len() {
        t.skip(i + 1)
    } else {
        Seq::empty()
    };
    ColDefM { name: lower_spec(name), type_def: lower_spec(rest) }
}

/// The text between the first `(` and the last `)` of `s`, or `None` when
/// no such pair exists.
pub open spec fn between_parens(s: Seq<char>) -> Option<Seq<char>> {
    let i = index_of(s, '(');
    let j = last_index_of(s, ')');
    if i < s.len() && j > i {
        Some(s.subrange(i + 1, j))
    } else {
        None
    }
}

/// The column definitions of a `CREATE TABLE` text: the parenthesised
/// list, split on commas.  `None` when the text holds no parenthesised
/// list.
pub open spec fn column_defs_of(sql: Seq<char>) -> Option<Seq<ColDefM>> {
    match between_parens(normalize(sql)) {
        None => None,
        Some(inner) => Some(split_char(inner, ',').map_values(|p: Seq<char>| col_def_of(p))),
    }
}

/// The ordered column names of a `CREATE TABLE` text.
pub open spec fn column_names_of(sql: Seq<char>) -> Option<Seq<Seq<char>>> {
    match column_defs_of(sql) {
        None => None,
        Some(defs) => Some(defs.map_values(|d: ColDefM| d.name)),
    }
}

/// The position of the first name in `names` equal to `target` up to
/// ASCII case, if any.
pub open spec fn find_col_idx(names: Seq<Seq<char>>, target: Seq<char>) -> Option<int>
    decreases names.len(),
{
    if names.len() == 0 {
        None
    } else if eq_ignore_case(names[0], target) {
        Some(0)
    } else {
        match find_col_idx(names.drop_first(), target) {
            None => None,
            Some(k) => Some(k + 1),
        }
    }
}

/// Whether the column at `idx` is declared `INTEGER PRIMARY KEY`: its
/// type clause names both `primary key` and an integer type.  `None` when
/// the `CREATE` text cannot be read or the index is out of range.
pub open spec fn is_ipk_spec(sql: Seq<char>, idx: int) -> Option<bool> {
    match column_defs_of(sql) {
        None => None,
        Some(defs) => if 0 <= idx < defs.len() {
            Some(
                contains_seq(defs[idx].type_def, "primary key"@) && (contains_seq(
                    defs[idx].type_def,
                    "int"@,
                ) || contains_seq(defs[idx].type_def, "integer"@)),
            )
        } else {
            None
        },
    }
}

/// The column definition read from one comma-separated piece.
fn col_def_exec(piece: &Vec<char>) -> (r: ColumnDefinition)
    ensures
        r@ == col_def_of(piece@),
{
    let t = trim_chars(piece);
    let i = index_of_exec(&t, ' ');
    proof {
        crate::text::lemma_index_of_range(t@, ' ');
    }
    let name = subvec(&t, 0, i);
    proof {
        assert(name@ =~= t@.take(i as int));
    }
    let rest: Vec<char> = if i < t.len() {
        let r = subvec(&t, i + 1, t.len());
        proof {
            assert(r@ =~= t@.skip(i + 1));
        }
        r
    } else {
        Vec::new()
    };
    let lname = lower_chars(&name);
    let ltype = lower_chars(&rest);
    ColumnDefinition { name: chars_to_string(&lname), type_def: chars_to_string(&ltype) }
}

/// Extract the column definitions from a `CREATE TABLE` text.  Fails
/// exactly when the text holds no parenthesised column list.
pub fn get_column_definitions(create_table_sql: &str) -> (r: Result<Vec<ColumnDefinition>, Error>)
    ensures
        match r {
            Ok(defs) => column_defs_of(create_table_sql@) == Some(defs.deep_view()),
            Err(e) => column_defs_of(create_table_sql@) is None && e == Error::Schema,
        },
{
    let cs = string_chars(create_table_sql);
    let norm = normalize_chars(&cs);
    let i = index_of_exec(&norm, '(');
    let (j, found) = last_index_of_exec(&norm, ')');
    proof {
        crate::text::lemma_index_of_range(norm@, '(');
        crate::text::lemma_last_index_of_range(norm@, ')');
    }
    if i >= norm.len() || !found || j <= i {
        return Err(Error::Schema);
    }
    let inner = subvec(&norm, i + 1, j);
    let pieces = split_chars(&inner, ',');
    let ghost piece_seqs = split_char(inner@, ',');
    let n = pieces.len();
    let mut defs: Vec<ColumnDefinition> = Vec::new();
    let mut k: usize = 0;
    while k < n
        invariant
            k <= n,
            n == pieces@.len(),
            pieces.deep_view() == piece_seqs,
            defs@.len() == k,
            forall|m: int| 0 <= m < k ==> defs@[m]@ == col_def_of(piece_seqs[m]),
        decreases n - k,
    {
        proof {
            assert(pieces@[k as int]@ == pieces.deep_view()[k as int]);
        }
        let def = col_def_exec(&pieces[k]);
        defs.push(def);
        k = k + 1;
    }
    proof {
        assert(defs.deep_view() =~= piece_seqs.map_values(|p: Seq<char>| col_def_of(p)));
    }
    Ok(defs)
}

/// The ordered, lowered column names of a `CREATE TABLE` text.  Fails
/// exactly when the text holds no parenthesised column list.
pub fn get_column_names(create_table_sql: &str) -> (r: Result<Vec<String>, Error>)
    ensures
        match r {
            Ok(names) => column_names_of(create_table_sql@) == Some(names.deep_view()),
            Err(e) => column_names_of(create_table_sql@) is None && e == Error::Schema,
        },
{
    let defs = match get_column_definitions(create_table_sql) {
        Ok(v) => v,
        Err(e) => {
            return Err(e);
        },
    };
    let n = defs.len();
    let mut names: Vec<String> = Vec::new();
    let mut k: usize = 0;
    while k < n
        invariant
            k <= n,
            n == defs@.len(),
            names@.len() == k,
            forall|m: int| 0 <= m < k ==> names@[m]@ == defs@[m]@.name,
        decreases n - k,
    {
        let name = defs[k].name.clone();
        names.push(name);
        k = k + 1;
    }
    proof {
        assert(names.deep_view() =~= defs.deep_view().map_values(|d: ColDefM| d.name));
    }
    Ok(names)
}

/// The position of the first of `ordered_column_names` equal to `name` up
/// to ASCII case.  Fails exactly when no name matches.
pub fn find_column_index(ordered_column_names: &Vec<String>, name: &str) -> (r: Result<
    usize,
    Error,
>)
    ensures
        match r {
            Ok(i) => find_col_idx(ordered_column_names.deep_view(), name@) == Some(i as int),
            Err(e) => find_col_idx(ordered_column_names.deep_view(), name@) is None && e
                == Error::Schema,
        },
{
    let target = string_chars(name);
    let n = ordered_column_names.len();
    let mut i: usize = 0;
    while i < n
        invariant
            i <= n,
            n == ordered_column_names@.len(),
            target@ == name@,
            forall|j: int|
                0 <= j < i ==> !eq_ignore_case(ordered_column_names.deep_view()[j], name@),
        decreases n - i,
    {
        let cand = string_chars(ordered_column_names[i].as_str());
        if eq_ignore_case_exec(&cand, &target) {
            proof {
                lemma_find_col_idx_is(ordered_column_names.deep_view(), name@, i as int);
            }
            return Ok(i);
        }
        i = i + 1;
    }
    proof {
        lemma_find_col_idx_none(ordered_column_names.deep_view(), name@);
    }
    Err(Error::Schema)
}

/// `find_col_idx` returns `k` when `k` is the first match.
proof fn lemma_find_col_idx_is(names: Seq<Seq<char>>, target: Seq<char>, k: int)
    requires
        0 <= k < names.len(),
        eq_ignore_case(names[k], target),
        forall|j: int| 0 <= j < k ==> !eq_ignore_case(names[j], target),
    ensures
        find_col_idx(names, target) == Some(k),
    decreases names.len(),
{
    if k > 0 {
        assert forall|j: int| 0 <= j < k - 1 implies !eq_ignore_case(
            names.drop_first()[j],
            target,
        ) by {
            assert(names.drop_first()[j] == names[j + 1]);
        }
        assert(names.drop_first()[k - 1] == names[k]);
        lemma_find_col_idx_is(names.drop_first(), target, k - 1);
    }
}

/// What `find_col_idx` returns: a position within bounds that matches,
/// or `None` only when no name matches.
pub proof fn lemma_find_col_idx_props(names: Seq<Seq<char>>, target: Seq<char>)
    ensures
        match find_col_idx(names, target) {
            Some(k) => 0 <= k < names.len() && eq_ignore_case(names[k], target),
            None => forall|j: int| 0 <= j < names.len() ==> !eq_ignore_case(names[j], target),
        },
    decreases names.len(),
{
    if names.len() > 0 && !eq_ignore_case(names[0], target) {
        lemma_find_col_idx_props(names.drop_first(), target);
        match find_col_idx(names.drop_first(), target) {
            Some(k) => {
                assert(names.drop_first()[k] == names[k + 1]);
            },
            None => {
                assert forall|j: int| 0 <= j < names.len() implies !eq_ignore_case(
                    names[j],
                    target,
                ) by {
                    if j > 0 {
                        assert(names.drop_first()[j - 1] == names[j]);
                    }
                }
            },
        }
    }
}

/// `find_col_idx` returns `None` when no name matches.
proof fn lemma_find_col_idx_none(names: Seq<Seq<char>>, target: Seq<char>)
    requires
        forall|j: int| 0 <= j < names.len() ==> !eq_ignore_case(names[j], target),
    ensures
        find_col_idx(names, target) is None,
    decreases names.len(),
{
    if names.len() > 0 {
        assert forall|j: int| 0 <= j < names.len() - 1 implies !eq_ignore_case(
            names.drop_first()[j],
            target,
        ) by {
            assert(names.drop_first()[j] == names[j + 1]);
        }
        lemma_find_col_idx_none(names.drop_first(), target);
    }
}

/// Whether the column at `col_idx` of the table described by
/// `table_record` is declared `INTEGER PRIMARY KEY`.  Fails when the
/// `CREATE` text cannot be read or the index names no column.
pub fn is_integer_primary_key(table_record: &SchemaRecord, col_idx: &usize) -> (r: Result<
    bool,
    Error,
>)
    ensures
        match r {
            Ok(b) => is_ipk_spec(table_record@.sql, *col_idx as int) == Some(b),
            Err(e) => is_ipk_spec(table_record@.sql, *col_idx as int) is None && e
                == Error::Schema,
        },
{
    let defs = match get_column_definitions(table_record.sql.as_str()) {
        Ok(v) => v,
        Err(e) => {
            return Err(e);
        },
    };
    if *col_idx >= defs.len() {
        return Err(Error::Schema);
    }
    let td = string_chars(defs[*col_idx].type_def.as_str());
    let pat_pk = string_chars("primary key");
    let pat_int = string_chars("int");
    let pat_integer = string_chars("integer");
    proof {
        assert(td@ == defs.deep_view()[*col_idx as int].type_def);
    }
    let has_pk = contains_chars(&td, &pat_pk);
    let has_int = contains_chars(&td, &pat_int);
    let has_integer = contains_chars(&td, &pat_integer);
    Ok(has_pk && (has_int || has_integer))
}

} // verus!
