use vstd::prelude::*;

verus! {

pub const DOT: u8 = 46;

/// First index at or after `i` whose entry equals `name`, if any.
pub open spec fn table_index_from(table: Seq<Seq<u8>>, name: Seq<u8>, i: int) -> Option<int>
    decreases table.len() - i,
{
    if 0 <= i < table.len() {
        if table[i] == name {
            Some(i)
        } else {
            table_index_from(table, name, i + 1)
        }
    } else {
        None
    }
}

/// The numeric id of `name` in the capture table: its first index there.
pub open spec fn table_index_of(table: Seq<Seq<u8>>, name: Seq<u8>) -> Option<int> {
    table_index_from(table, name, 0)
}

/// Index of the last dot in `name`, or `-1` if it has none.
pub open spec fn last_dot(name: Seq<u8>) -> int
    decreases name.len(),
{
    if name.len() > 0 {
        if name[name.len() - 1] == DOT {
            name.len() - 1
        } else {
            last_dot(name.drop_last())
        }
    } else {
        -1
    }
}

/// `name` with its last dot-separated component stripped.
pub open spec fn strip_last_component(name: Seq<u8>) -> Seq<u8> {
    name.subrange(0, last_dot(name))
}

/// Hierarchical fallback: the id of `name` itself, or else of the nearest
/// dot-ancestor that the table declares; `None` if no ancestor is declared.
pub open spec fn resolve_name(table: Seq<Seq<u8>>, name: Seq<u8>) -> Option<int>
    decreases name.len(),
{
    match table_index_of(table, name) {
        Some(i) => Some(i),
        None => {
            let d = last_dot(name);
            if 0 <= d < name.len() {
                resolve_name(table, name.subrange(0, d))
            } else {
                None
            }
        },
    }
}

/// The last dot lies inside the name.
pub proof fn lemma_last_dot_bounds(name: Seq<u8>)
    ensures
        -1 <= last_dot(name) < name.len(),
    decreases name.len(),
{
    if name.len() > 0 && name[name.len() - 1] != DOT {
        lemma_last_dot_bounds(name.drop_last());
    }
}

/// Hierarchical fallback: a dotted name absent from the table resolves
/// exactly as its parent — the name with its last dot component stripped —
/// does. In particular, when the parent is declared, the name gets the
/// parent's id.
pub proof fn lemma_fallback_to_parent(table: Seq<Seq<u8>>, name: Seq<u8>)
    requires
        table_index_of(table, name) is None,
        last_dot(name) >= 0,
    ensures
        resolve_name(table, name) == resolve_name(table, strip_last_component(name)),
        table_index_of(table, strip_last_component(name)) is Some ==> resolve_name(table, name)
            == table_index_of(table, strip_last_component(name)),
{
    lemma_last_dot_bounds(name);
}

/// A found id always indexes the table.
pub proof fn lemma_table_index_bounds(table: Seq<Seq<u8>>, name: Seq<u8>, i: int)
    requires
        0 <= i,
        table_index_from(table, name, i) is Some,
    ensures
        i <= table_index_from(table, name, i)->Some_0 < table.len(),
        table[table_index_from(table, name, i)->Some_0] == name,
    decreases table.len() - i,
{
    if i < table.len() && table[i] != name {
        lemma_table_index_bounds(table, name, i + 1);
    }
}

/// A resolved id always indexes the table.
pub proof fn lemma_resolve_bounds(table: Seq<Seq<u8>>, name: Seq<u8>)
    requires
        resolve_name(table, name) is Some,
    ensures
        0 <= resolve_name(table, name)->Some_0 < table.len(),
    decreases name.len(),
{
    match table_index_of(table, name) {
        Some(i) => {
            lemma_table_index_bounds(table, name, 0);
        },
        None => {
            let d = last_dot(name);
            if 0 <= d < name.len() {
                lemma_resolve_bounds(table, name.subrange(0, d));
            }
        },
    }
}

/// Byte-for-byte equality of two names.
pub fn bytes_eq(a: &Vec<u8>, b: &Vec<u8>) -> (r: bool)
    ensures
        r == (a@ == b@),
{
    if a.len() != b.len() {
        return false;
    }
    let mut i: usize = 0;
    while i < a.len()
        invariant
            i <= a.len(),
            a@.len() == b@.len(),
            forall|j: int| 0 <= j < i ==> a@[j] == b@[j],
        decreases a.len() - i,
    {
        if a[i] != b[i] {
            return false;
        }
        i = i + 1;
    }
    proof {
        assert(a@ =~= b@);
    }
    true
}

/// Look a name up verbatim in the capture table.
pub fn table_lookup(table: &Vec<Vec<u8>>, name: &Vec<u8>) -> (r: Option<usize>)
    ensures
        match r {
            Some(i) => table_index_of(table.deep_view(), name@) == Some(i as int),
            None => table_index_of(table.deep_view(), name@) is None,
        },
{
    let ghost tv = table.deep_view();
    let mut i: usize = 0;
    while i < table.len()
        invariant
            i <= table.len(),
            tv == table.deep_view(),
            tv.len() == table@.len(),
            forall|q: int| 0 <= q < tv.len() ==> tv[q] == #[trigger] table@[q].deep_view(),
            table_index_of(tv, name@) == table_index_from(tv, name@, i as int),
        decreases table.len() - i,
    {
        proof {
            assert(table@[i as int].deep_view() =~= table@[i as int]@);
        }
        if bytes_eq(&table[i], name) {
            return Some(i);
        }
        i = i + 1;
    }
    None
}

fn last_dot_exec(v: &Vec<u8>) -> (r: Option<usize>)
    ensures
        match r {
            Some(d) => last_dot(v@) == d as int && d < v@.len(),
            None => last_dot(v@) == -1,
        },
{
    let mut e = v.len();
    proof {
        assert(v@.subrange(0, e as int) =~= v@);
    }
    while e > 0 && v[e - 1] != DOT
        invariant
            e <= v.len(),
            last_dot(v@) == last_dot(v@.subrange(0, e as int)),
        decreases e,
    {
        proof {
            assert(v@.subrange(0, e as int).drop_last() =~= v@.subrange(0, e - 1));
        }
        e = e - 1;
    }
    if e == 0 {
        None
    } else {
        Some(e - 1)
    }
}

/// Resolve a capture name against the table by hierarchical fallback:
/// try the name verbatim, then strip dot components from the end until a
/// declared ancestor is found.
pub fn resolve_capture(table: &Vec<Vec<u8>>, name: &Vec<u8>) -> (r: Option<usize>)
    ensures
        match r {
            Some(i) => resolve_name(table.deep_view(), name@) == Some(i as int),
            None => resolve_name(table.deep_view(), name@) is None,
        },
{
    let ghost tv = table.deep_view();
    let mut cur: Vec<u8> = name.clone();
    proof {
        assert(cur@ =~= name@);
    }
    loop
        invariant
            tv == table.deep_view(),
            resolve_name(tv, name@) == resolve_name(tv, cur@),
        decreases cur@.len(),
    {
        match table_lookup(table, &cur) {
            Some(i) => {
                return Some(i);
            },
            None => {},
        }
        match last_dot_exec(&cur) {
            None => {
                return None;
            },
            Some(d) => {
                cur.truncate(d);
            },
        }
    }
}

} // verus!
