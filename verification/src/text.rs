//! Text helpers: the order in which keys are kept, and the `--` separator
//! that joins a project slug and a group slug into a role name.
use vstd::prelude::*;

verus! {

/// Lexicographic order on character sequences (the order of `String`
/// in a `BTreeMap`: for UTF-8 text, byte order and code point order agree).
pub open spec fn text_lt(a: Seq<char>, b: Seq<char>) -> bool
    decreases a.len(),
{
    if a.len() == 0 {
        b.len() > 0
    } else if b.len() == 0 {
        false
    } else if a[0] != b[0] {
        (a[0] as int) < (b[0] as int)
    } else {
        text_lt(a.drop_first(), b.drop_first())
    }
}

pub proof fn lemma_text_lt_irreflexive(a: Seq<char>)
    ensures
        !text_lt(a, a),
    decreases a.len(),
{
    if a.len() > 0 {
        lemma_text_lt_irreflexive(a.drop_first());
    }
}

pub proof fn lemma_text_lt_transitive(a: Seq<char>, b: Seq<char>, c: Seq<char>)
    requires
        text_lt(a, b),
        text_lt(b, c),
    ensures
        text_lt(a, c),
    decreases a.len(),
{
    if a.len() > 0 && b.len() > 0 && c.len() > 0 {
        if a[0] == b[0] && b[0] == c[0] {
            lemma_text_lt_transitive(a.drop_first(), b.drop_first(), c.drop_first());
        }
    }
}

pub proof fn lemma_text_lt_total(a: Seq<char>, b: Seq<char>)
    ensures
        a == b || text_lt(a, b) || text_lt(b, a),
    decreases a.len(),
{
    if a.len() > 0 && b.len() > 0 {
        if a[0] == b[0] {
            lemma_text_lt_total(a.drop_first(), b.drop_first());
            if a.drop_first() == b.drop_first() {
                assert(a =~= seq![a[0]] + a.drop_first());
                assert(b =~= seq![b[0]] + b.drop_first());
            }
        } else {
            assert((a[0] as int) != (b[0] as int));
        }
    } else if a.len() == 0 && b.len() == 0 {
        assert(a =~= b);
    }
}

/// Two sequences that agree on their first `i` characters compare as their
/// suffixes from `i` do.
proof fn lemma_text_lt_common_prefix(a: Seq<char>, b: Seq<char>, i: int)
    requires
        0 <= i <= a.len(),
        i <= b.len(),
        a.subrange(0, i) == b.subrange(0, i),
    ensures
        text_lt(a, b) == text_lt(a.subrange(i, a.len() as int), b.subrange(i, b.len() as int)),
    decreases i,
{
    if i > 0 {
        assert(a[0] == a.subrange(0, i)[0]);
        assert(b[0] == b.subrange(0, i)[0]);
        let a1 = a.drop_first();
        let b1 = b.drop_first();
        assert(a1.subrange(0, i - 1) =~= a.subrange(0, i).drop_first());
        assert(b1.subrange(0, i - 1) =~= b.subrange(0, i).drop_first());
        lemma_text_lt_common_prefix(a1, b1, i - 1);
        assert(a1.subrange(i - 1, a1.len() as int) =~= a.subrange(i, a.len() as int));
        assert(b1.subrange(i - 1, b1.len() as int) =~= b.subrange(i, b.len() as int));
    } else {
        assert(a.subrange(0, a.len() as int) =~= a);
        assert(b.subrange(0, b.len() as int) =~= b);
    }
}

/// The three outcomes of comparing two keys.
#[derive(Debug, PartialEq, Eq, Structural)]
pub enum KeyOrder {
    Less,
    Equal,
    Greater,
}

/// Compares two texts in the order `text_lt`.
pub fn key_order(a: &str, b: &str) -> (r: KeyOrder)
    ensures
        r == KeyOrder::Less <==> text_lt(a@, b@),
        r == KeyOrder::Equal <==> a@ == b@,
        r == KeyOrder::Greater <==> text_lt(b@, a@),
{
    proof {
        lemma_text_lt_irreflexive(a@);
        lemma_text_lt_total(a@, b@);
        if text_lt(a@, b@) && text_lt(b@, a@) {
            lemma_text_lt_transitive(a@, b@, a@);
        }
    }
    let la = a.unicode_len();
    let lb = b.unicode_len();
    let mut i: usize = 0;
    while i < la && i < lb
        invariant
            la == a@.len(),
            lb == b@.len(),
            i <= la,
            i <= lb,
            a@.subrange(0, i as int) == b@.subrange(0, i as int),
        decreases la - i,
    {
        let ca = a.get_char(i);
        let cb = b.get_char(i);
        if ca != cb {
            proof {
                lemma_text_lt_common_prefix(a@, b@, i as int);
                lemma_text_lt_common_prefix(b@, a@, i as int);
                let sa = a@.subrange(i as int, a@.len() as int);
                let sb = b@.subrange(i as int, b@.len() as int);
                assert(sa[0] == ca);
                assert(sb[0] == cb);
                assert((ca as u32) != (cb as u32));
                if a@ == b@ {
                    assert(a@[i as int] == b@[i as int]);
                }
            }
            if (ca as u32) < (cb as u32) {
                return KeyOrder::Less;
            } else {
                return KeyOrder::Greater;
            }
        }
        proof {
            assert(a@.subrange(0, i + 1) =~= a@.subrange(0, i as int).push(ca));
            assert(b@.subrange(0, i + 1) =~= b@.subrange(0, i as int).push(cb));
        }
        i = i + 1;
    }
    proof {
        lemma_text_lt_common_prefix(a@, b@, i as int);
        lemma_text_lt_common_prefix(b@, a@, i as int);
        let sa = a@.subrange(i as int, a@.len() as int);
        let sb = b@.subrange(i as int, b@.len() as int);
        if i == la && i == lb {
            assert(a@ =~= a@.subrange(0, i as int));
            assert(b@ =~= b@.subrange(0, i as int));
        }
        if i == la && i < lb {
            assert(sa.len() == 0 && sb.len() > 0);
            assert(a@.len() != b@.len());
        }
        if i == lb && i < la {
            assert(sb.len() == 0 && sa.len() > 0);
            assert(a@.len() != b@.len());
        }
    }
    if i == la {
        if i == lb {
            KeyOrder::Equal
        } else {
            KeyOrder::Less
        }
    } else {
        KeyOrder::Greater
    }
}

/// Whether `s` holds the separator `--` starting at position `i`.
pub open spec fn sep_at(s: Seq<char>, i: int) -> bool {
    0 <= i && i + 1 < s.len() && s[i] == '-' && s[i + 1] == '-'
}

/// Whether `s` holds the separator `--` anywhere.
pub open spec fn has_sep(s: Seq<char>) -> bool {
    exists|i: int| sep_at(s, i)
}

/// Whether `i` is the first position of the separator in `s`.
pub open spec fn first_sep(s: Seq<char>, i: int) -> bool {
    sep_at(s, i) && forall|j: int| 0 <= j < i ==> !sep_at(s, j)
}

/// What splitting a role name at `--`, into at most three pieces, gives when
/// there are exactly two: the text before the first separator and the rest,
/// provided that the rest holds no separator.
pub open spec fn split_role_spec(s: Seq<char>) -> Option<(Seq<char>, Seq<char>)> {
    if has_sep(s) {
        let i = choose|i: int| first_sep(s, i);
        let rest = s.subrange(i + 2, s.len() as int);
        if has_sep(rest) {
            None
        } else {
            Some((s.subrange(0, i), rest))
        }
    } else {
        None
    }
}

/// The role name of a group: the project slug, `--`, the group slug.
pub open spec fn role_name_spec(project: Seq<char>, group: Seq<char>) -> Seq<char> {
    project + seq!['-', '-'] + group
}

pub proof fn lemma_first_sep_unique(s: Seq<char>, i: int, j: int)
    requires
        first_sep(s, i),
        first_sep(s, j),
    ensures
        i == j,
{
    if i < j {
        assert(!sep_at(s, i));
    }
    if j < i {
        assert(!sep_at(s, j));
    }
}

/// Splitting the role name that joins two slugs gives the slugs back, when
/// neither holds the separator and the project slug does not end in `-`.
pub proof fn lemma_split_role_name_of_join(project: Seq<char>, group: Seq<char>)
    requires
        !has_sep(project),
        !has_sep(group),
        project.len() == 0 || project.last() != '-',
    ensures
        split_role_spec(role_name_spec(project, group)) == Some((project, group)),
{
    let s = role_name_spec(project, group);
    let n = project.len() as int;
    assert(sep_at(s, n));
    assert forall|j: int| 0 <= j < n implies !sep_at(s, j) by {
        if j < n - 1 {
            if sep_at(s, j) {
                assert(sep_at(project, j));
            }
        } else {
            assert(s[j] == project.last());
        }
    }
    assert(first_sep(s, n));
    let i = choose|i: int| first_sep(s, i);
    lemma_first_sep_unique(s, i, n);
    let rest = s.subrange(n + 2, s.len() as int);
    assert(rest =~= group);
    assert(s.subrange(0, n) =~= project);
}

proof fn lemma_first_sep_exists(s: Seq<char>, k: int)
    requires
        sep_at(s, k),
    ensures
        exists|i: int| first_sep(s, i),
    decreases k,
{
    if exists|j: int| 0 <= j < k && sep_at(s, j) {
        let j = choose|j: int| 0 <= j < k && sep_at(s, j);
        lemma_first_sep_exists(s, j);
    } else {
        assert(first_sep(s, k));
    }
}

/// A successful split gives back the parts that join to the role name.
pub proof fn lemma_split_role_name_joins(s: Seq<char>)
    requires
        split_role_spec(s) is Some,
    ensures
        match split_role_spec(s) {
            Some((p, g)) => role_name_spec(p, g) == s,
            None => false,
        },
{
    let k = choose|k: int| sep_at(s, k);
    lemma_first_sep_exists(s, k);
    let i = choose|i: int| first_sep(s, i);
    assert(s =~= s.subrange(0, i) + seq!['-', '-'] + s.subrange(i + 2, s.len() as int));
}

} // verus!
