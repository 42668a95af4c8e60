//! Node names, their lexicographic order, and the canonical table that
//! numbers the names of a graph in that order.

use vstd::prelude::*;
use vstd::std_specs::iter::IteratorSpec;

verus! {

/// Lexicographic comparison of two names from position `i` on, character by
/// character; a name comes before every name that it is a proper prefix of.
pub open spec fn name_lt_from(a: Seq<char>, b: Seq<char>, i: int) -> bool
    decreases a.len() - i,
{
    if i < 0 || i >= b.len() {
        false
    } else if i >= a.len() {
        true
    } else if a[i] != b[i] {
        a[i] < b[i]
    } else {
        name_lt_from(a, b, i + 1)
    }
}

/// `a` comes strictly before `b` in lexicographic order.
pub open spec fn name_lt(a: Seq<char>, b: Seq<char>) -> bool {
    name_lt_from(a, b, 0)
}

/// The names that a vector of strings holds.
pub open spec fn names_view(names: Seq<String>) -> Seq<Seq<char>> {
    Seq::new(names.len(), |i: int| names[i]@)
}

/// Each name comes strictly before the next, so no name occurs twice.
pub open spec fn strictly_sorted(names: Seq<Seq<char>>) -> bool {
    forall|i: int, j: int| 0 <= i < j < names.len() ==> name_lt(#[trigger] names[i], #[trigger] names[j])
}

/// `a` and `b` hold the same names, whatever their order.
pub open spec fn same_names(a: Seq<Seq<char>>, b: Seq<Seq<char>>) -> bool {
    forall|x: Seq<char>| a.contains(x) <==> b.contains(x)
}

/// `table` is the canonical table of the set `names`: it holds exactly the
/// names of the set, in strictly rising order.
pub open spec fn is_table_of(table: Seq<Seq<char>>, names: Set<Seq<char>>) -> bool {
    &&& strictly_sorted(table)
    &&& forall|x: Seq<char>| table.contains(x) <==> names.contains(x)
}

/// The canonical table of a set of names.
pub open spec fn table_of(names: Set<Seq<char>>) -> Seq<Seq<char>> {
    choose|table: Seq<Seq<char>>| is_table_of(table, names)
}

/// The first position from `i` on at which `name` stands, or the length of
/// `names` when it stands at none.
pub open spec fn first_index_from(names: Seq<Seq<char>>, name: Seq<char>, i: int) -> int
    decreases names.len() - i,
{
    if i < 0 || i >= names.len() {
        names.len() as int
    } else if names[i] == name {
        i
    } else {
        first_index_from(names, name, i + 1)
    }
}

/// The first position at which `name` stands, or the length of `names` when
/// it stands at none.
pub open spec fn first_index(names: Seq<Seq<char>>, name: Seq<char>) -> int {
    first_index_from(names, name, 0)
}

proof fn lemma_name_lt_from_irreflexive(a: Seq<char>, i: int)
    ensures
        !name_lt_from(a, a, i),
    decreases a.len() - i,
{
    if 0 <= i < a.len() {
        lemma_name_lt_from_irreflexive(a, i + 1);
    }
}

/// No name comes before itself.
pub proof fn lemma_name_lt_irreflexive(a: Seq<char>)
    ensures
        !name_lt(a, a),
{
    lemma_name_lt_from_irreflexive(a, 0);
}

proof fn lemma_name_lt_from_transitive(a: Seq<char>, b: Seq<char>, c: Seq<char>, i: int)
    requires
        0 <= i,
        name_lt_from(a, b, i),
        name_lt_from(b, c, i),
    ensures
        name_lt_from(a, c, i),
    decreases a.len() - i,
{
    if i < a.len() && a[i] == b[i] && b[i] == c[i] {
        lemma_name_lt_from_transitive(a, b, c, i + 1);
    }
}

/// The order of names is transitive.
pub proof fn lemma_name_lt_transitive(a: Seq<char>, b: Seq<char>, c: Seq<char>)
    requires
        name_lt(a, b),
        name_lt(b, c),
    ensures
        name_lt(a, c),
{
    lemma_name_lt_from_transitive(a, b, c, 0);
}

proof fn lemma_name_lt_from_connected(a: Seq<char>, b: Seq<char>, i: int)
    requires
        0 <= i <= a.len(),
        i <= b.len(),
        forall|j: int| 0 <= j < i ==> a[j] == b[j],
        !name_lt_from(a, b, i),
        !name_lt_from(b, a, i),
    ensures
        a == b,
    decreases a.len() - i,
{
    if i < a.len() && i < b.len() {
        lemma_name_lt_from_connected(a, b, i + 1);
    } else {
        assert(a =~= b);
    }
}

/// Of two different names one comes before the other.
pub proof fn lemma_name_lt_connected(a: Seq<char>, b: Seq<char>)
    ensures
        a == b || name_lt(a, b) || name_lt(b, a),
{
    if !name_lt(a, b) && !name_lt(b, a) {
        lemma_name_lt_from_connected(a, b, 0);
    }
}

/// Of two names at most one comes before the other.
pub proof fn lemma_name_lt_asymmetric(a: Seq<char>, b: Seq<char>)
    ensures
        !(name_lt(a, b) && name_lt(b, a)),
{
    if name_lt(a, b) && name_lt(b, a) {
        lemma_name_lt_transitive(a, b, a);
        lemma_name_lt_irreflexive(a);
    }
}

proof fn lemma_first_index_from(names: Seq<Seq<char>>, name: Seq<char>, i: int)
    requires
        0 <= i <= names.len(),
    ensures
        i <= first_index_from(names, name, i) <= names.len(),
        first_index_from(names, name, i) < names.len() ==> names[first_index_from(names, name, i)]
            == name,
        forall|j: int| i <= j < first_index_from(names, name, i) ==> #[trigger] names[j] != name,
    decreases names.len() - i,
{
    if i < names.len() && names[i] != name {
        lemma_first_index_from(names, name, i + 1);
    }
}

/// The first index of a name is a position of that name, no earlier position
/// holds it, and it is below the length exactly when the name occurs.
pub proof fn lemma_first_index(names: Seq<Seq<char>>, name: Seq<char>)
    ensures
        0 <= first_index(names, name) <= names.len(),
        first_index(names, name) < names.len() ==> names[first_index(names, name)] == name,
        forall|j: int| 0 <= j < first_index(names, name) ==> #[trigger] names[j] != name,
        first_index(names, name) < names.len() <==> names.contains(name),
{
    lemma_first_index_from(names, name, 0);
    if names.contains(name) {
        let j = choose|j: int| 0 <= j < names.len() && names[j] == name;
        assert(names[j] == name);
    }
}

/// In a table without repetition every position is the first index of the
/// name that stands there.
pub proof fn lemma_first_index_of_sorted(names: Seq<Seq<char>>, i: int)
    requires
        strictly_sorted(names),
        0 <= i < names.len(),
    ensures
        first_index(names, names[i]) == i,
{
    lemma_first_index(names, names[i]);
    let f = first_index(names, names[i]);
    if f < i {
        assert(name_lt(names[f], names[i]));
        lemma_name_lt_irreflexive(names[i]);
    }
}

/// A strictly sorted table holds no name twice.
pub proof fn lemma_sorted_no_duplicates(names: Seq<Seq<char>>)
    requires
        strictly_sorted(names),
    ensures
        names.no_duplicates(),
{
    assert forall|i: int, j: int|
        0 <= i < names.len() && 0 <= j < names.len() && i != j implies names[i] != names[j] by {
        if i < j {
            assert(name_lt(names[i], names[j]));
        } else {
            assert(name_lt(names[j], names[i]));
        }
        lemma_name_lt_irreflexive(names[i]);
    }
}

/// The canonical table is unique: two strictly sorted tables with the same
/// names are the same table.
pub proof fn lemma_sorted_names_unique(a: Seq<Seq<char>>, b: Seq<Seq<char>>)
    requires
        strictly_sorted(a),
        strictly_sorted(b),
        same_names(a, b),
    ensures
        a == b,
    decreases a.len(),
{
    if a.len() == 0 {
        if b.len() > 0 {
            assert(b.contains(b[0]));
            assert(a.contains(b[0]));
        }
        assert(a =~= b);
    } else if b.len() == 0 {
        assert(a.contains(a[0]));
        assert(b.contains(a[0]));
    } else {
        assert(a.contains(a[0]));
        assert(b.contains(a[0]));
        assert(b.contains(b[0]));
        assert(a.contains(b[0]));
        let i = choose|i: int| 0 <= i < a.len() && a[i] == b[0];
        let j = choose|j: int| 0 <= j < b.len() && b[j] == a[0];
        if i > 0 && j > 0 {
            assert(name_lt(a[0], a[i]));
            assert(name_lt(b[0], b[j]));
            lemma_name_lt_asymmetric(a[0], b[0]);
        }
        if i > 0 {
            assert(name_lt(a[0], a[i]));
            lemma_name_lt_irreflexive(a[0]);
        }
        if j > 0 {
            assert(name_lt(b[0], b[j]));
            lemma_name_lt_irreflexive(b[0]);
        }
        assert(a[0] == b[0]);
        let ta = a.drop_first();
        let tb = b.drop_first();
        assert(strictly_sorted(ta)) by {
            assert forall|i: int, j: int| 0 <= i < j < ta.len() implies name_lt(
                #[trigger] ta[i],
                #[trigger] ta[j],
            ) by {
                assert(name_lt(a[i + 1], a[j + 1]));
            }
        }
        assert(strictly_sorted(tb)) by {
            assert forall|i: int, j: int| 0 <= i < j < tb.len() implies name_lt(
                #[trigger] tb[i],
                #[trigger] tb[j],
            ) by {
                assert(name_lt(b[i + 1], b[j + 1]));
            }
        }
        assert forall|x: Seq<char>| ta.contains(x) <==> tb.contains(x) by {
            if ta.contains(x) {
                let k = choose|k: int| 0 <= k < ta.len() && ta[k] == x;
                assert(a[k + 1] == x);
                assert(a.contains(x));
                assert(name_lt(a[0], a[k + 1]));
                let m = choose|m: int| 0 <= m < b.len() && b[m] == x;
                if m == 0 {
                    lemma_name_lt_irreflexive(x);
                }
                assert(tb[m - 1] == x);
            }
            if tb.contains(x) {
                let k = choose|k: int| 0 <= k < tb.len() && tb[k] == x;
                assert(b[k + 1] == x);
                assert(b.contains(x));
                assert(name_lt(b[0], b[k + 1]));
                let m = choose|m: int| 0 <= m < a.len() && a[m] == x;
                if m == 0 {
                    lemma_name_lt_irreflexive(x);
                }
                assert(ta[m - 1] == x);
            }
        }
        lemma_sorted_names_unique(ta, tb);
        assert(a =~= seq![a[0]] + ta);
        assert(b =~= seq![b[0]] + tb);
    }
}

/// A set of names has one canonical table.
pub proof fn lemma_table_of(table: Seq<Seq<char>>, names: Set<Seq<char>>)
    requires
        is_table_of(table, names),
    ensures
        table == table_of(names),
{
    lemma_sorted_names_unique(table, table_of(names));
}

/// The canonical table of a set has as many names as the set.
pub proof fn lemma_table_len(table: Seq<Seq<char>>, names: Set<Seq<char>>)
    requires
        is_table_of(table, names),
    ensures
        names.finite(),
        names.len() == table.len(),
{
    lemma_sorted_no_duplicates(table);
    table.unique_seq_to_set();
    vstd::seq_lib::seq_to_set_is_finite(table);
    assert(table.to_set() =~= names);
}

/// How two names stand to each other.
#[derive(Debug, PartialEq, Eq, Clone, Copy, Structural)]
pub enum NameOrder {
    Before,
    Same,
    After,
}

/// How `a` stands to `b`: the same name, or before or after it in
/// lexicographic order.
pub open spec fn name_order(a: Seq<char>, b: Seq<char>) -> NameOrder {
    if a == b {
        NameOrder::Same
    } else if name_lt(a, b) {
        NameOrder::Before
    } else {
        NameOrder::After
    }
}

/// Compares two names character by character.
pub fn compare_names(a: &str, b: &str) -> (order: NameOrder)
    ensures
        order == name_order(a@, b@),
{
    let mut rest_a = a.chars();
    let mut rest_b = b.chars();
    let ghost mut i: int = 0;
    loop
        invariant
            0 <= i <= a@.len(),
            i <= b@.len(),
            rest_a.remaining() == a@.skip(i),
            rest_b.remaining() == b@.skip(i),
            forall|j: int| 0 <= j < i ==> a@[j] == b@[j],
            name_lt(a@, b@) == name_lt_from(a@, b@, i),
        decreases a@.len() - i,
    {
        let next_a = rest_a.next();
        let next_b = rest_b.next();
        match next_a {
            None => {
                match next_b {
                    None => {
                        assert(a@ =~= b@);
                        return NameOrder::Same;
                    },
                    Some(_) => {
                        return NameOrder::Before;
                    },
                }
            },
            Some(ca) => {
                match next_b {
                    None => {
                        return NameOrder::After;
                    },
                    Some(cb) => {
                        assert(ca == a@[i] && cb == b@[i]);
                        if ca < cb {
                            return NameOrder::Before;
                        }
                        if ca > cb {
                            return NameOrder::After;
                        }
                        proof {
                            i = i + 1;
                        }
                    },
                }
            },
        }
    }
}

/// Whether two names are the same.
pub fn same_name(a: &str, b: &str) -> (same: bool)
    ensures
        same == (a@ == b@),
{
    match compare_names(a, b) {
        NameOrder::Same => true,
        _ => false,
    }
}

/// Finds the first position of `name` in `names`.
pub fn find_name(names: &Vec<String>, name: &str) -> (position: Option<usize>)
    ensures
        match position {
            Some(i) => i == first_index(names_view(names@), name@) && i < names.len(),
            None => first_index(names_view(names@), name@) == names.len(),
        },
{
    let mut index: usize = 0;
    while index < names.len()
        invariant
            index <= names.len(),
            first_index(names_view(names@), name@) == first_index_from(
                names_view(names@),
                name@,
                index as int,
            ),
        decreases names.len() - index,
    {
        if same_name(names[index].as_str(), name) {
            return Some(index);
        }
        index += 1;
    }
    None
}

/// Puts `name` at its place in a strictly sorted table, unless the table
/// holds it already.
pub fn insert_sorted(names: &mut Vec<String>, name: &str)
    requires
        strictly_sorted(names_view(old(names)@)),
    ensures
        strictly_sorted(names_view(final(names)@)),
        forall|x: Seq<char>|
            names_view(final(names)@).contains(x) <==> names_view(old(names)@).contains(x) || x
                == name@,
{
    let ghost before = names_view(names@);
    let mut index: usize = 0;
    while index < names.len()
        invariant
            index <= names.len(),
            names_view(names@) == before,
            strictly_sorted(before),
            forall|j: int| 0 <= j < index ==> name_lt(#[trigger] before[j], name@),
        ensures
            index < names.len() ==> name_lt(name@, before[index as int]),
        decreases names.len() - index,
    {
        match compare_names(names[index].as_str(), name) {
            NameOrder::Before => {},
            NameOrder::Same => {
                proof {
                    assert(before[index as int] == name@);
                    assert(before.contains(name@));
                }
                return ;
            },
            NameOrder::After => {
                proof {
                    lemma_name_lt_connected(before[index as int], name@);
                }
                break ;
            },
        }
        index += 1;
    }
    names.insert(index, name.to_owned());
    proof {
        let after = names_view(names@);
        assert(after =~= before.insert(index as int, name@));
        assert forall|i: int, j: int| 0 <= i < j < after.len() implies name_lt(
            #[trigger] after[i],
            #[trigger] after[j],
        ) by {
            if j < index {
                assert(name_lt(before[i], before[j]));
            } else if j == index {
                assert(name_lt(before[i], name@));
            } else if i < index {
                assert(name_lt(before[i], before[j - 1]));
            } else if i == index {
                if j - 1 > index {
                    assert(name_lt(before[index as int], before[j - 1]));
                    lemma_name_lt_transitive(name@, before[index as int], before[j - 1]);
                }
            } else {
                assert(name_lt(before[i - 1], before[j - 1]));
            }
        }
        assert forall|x: Seq<char>| after.contains(x) <==> before.contains(x) || x == name@ by {
            if after.contains(x) {
                let k = choose|k: int| 0 <= k < after.len() && after[k] == x;
                if k < index {
                    assert(before[k] == x);
                } else if k > index {
                    assert(before[k - 1] == x);
                }
            }
            if before.contains(x) {
                let k = choose|k: int| 0 <= k < before.len() && before[k] == x;
                if k < index {
                    assert(after[k] == x);
                } else {
                    assert(after[k + 1] == x);
                }
            }
            if x == name@ {
                assert(after[index as int] == x);
            }
        }
    }
}

} // verus!
