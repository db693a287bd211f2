//! Environments kept sorted by variable name, so that a traced program
//! always sees the same environment block for the same variables.
use vstd::prelude::*;
use vstd::string::*;
use crate::facts::lookup;
use crate::text::{concat, text_eq, views};
use crate::trace::{keys_of, lemma_lookup_some_index, lemma_lookup_update};

verus! {

/// The environment that a list of pairs stands for, the last pair of a
/// name giving its value.
pub open spec fn env_view(s: Seq<(String, String)>) -> Map<Seq<char>, Seq<char>> {
    Map::new(|k: Seq<char>| lookup(s, k) is Some, |k: Seq<char>| lookup(s, k)->0@)
}

/// `a` sorts strictly before `b`, character by character, a proper
/// prefix first.
pub open spec fn name_less(a: Seq<char>, b: Seq<char>) -> bool
    decreases a.len(),
{
    if a.len() == 0 {
        b.len() > 0
    } else if b.len() == 0 {
        false
    } else if a[0] != b[0] {
        a[0] < b[0]
    } else {
        name_less(a.drop_first(), b.drop_first())
    }
}

pub proof fn lemma_name_less_irreflexive(a: Seq<char>)
    ensures
        !name_less(a, a),
    decreases a.len(),
{
    if a.len() > 0 {
        lemma_name_less_irreflexive(a.drop_first());
    }
}

pub proof fn lemma_name_less_transitive(a: Seq<char>, b: Seq<char>, c: Seq<char>)
    requires
        name_less(a, b),
        name_less(b, c),
    ensures
        name_less(a, c),
    decreases a.len(),
{
    if a.len() > 0 && b.len() > 0 && c.len() > 0 && a[0] == b[0] && b[0] == c[0] {
        lemma_name_less_transitive(a.drop_first(), b.drop_first(), c.drop_first());
    }
}

pub proof fn lemma_name_less_total(a: Seq<char>, b: Seq<char>)
    ensures
        a == b || name_less(a, b) || name_less(b, a),
    decreases a.len(),
{
    if a.len() > 0 && b.len() > 0 && a[0] == b[0] {
        lemma_name_less_total(a.drop_first(), b.drop_first());
        if a.drop_first() == b.drop_first() {
            assert(a =~= seq![a[0]] + a.drop_first());
            assert(b =~= seq![b[0]] + b.drop_first());
        }
    } else if a.len() == 0 && b.len() == 0 {
        assert(a =~= b);
    }
}

/// Names in strictly increasing order.
pub open spec fn sorted_env(s: Seq<(String, String)>) -> bool {
    forall|i: int, j: int| 0 <= i < j < s.len() ==> name_less(s[i].0@, s[j].0@)
}

pub fn name_lt(a: &str, b: &str) -> (r: bool)
    ensures
        r == name_less(a@, b@),
{
    let na = a.unicode_len();
    let nb = b.unicode_len();
    let mut i: usize = 0;
    assert(a@.subrange(0, na as int) =~= a@);
    assert(b@.subrange(0, nb as int) =~= b@);
    while i < na && i < nb
        invariant
            na == a@.len(),
            nb == b@.len(),
            i <= na,
            i <= nb,
            name_less(a@, b@) == name_less(
                a@.subrange(i as int, na as int),
                b@.subrange(i as int, nb as int),
            ),
        decreases na - i,
    {
        let x = a.get_char(i);
        let y = b.get_char(i);
        let ghost sa = a@.subrange(i as int, na as int);
        let ghost sb = b@.subrange(i as int, nb as int);
        assert(sa[0] == x && sb[0] == y);
        if x != y {
            return x < y;
        }
        assert(sa.drop_first() =~= a@.subrange(i + 1, na as int));
        assert(sb.drop_first() =~= b@.subrange(i + 1, nb as int));
        i += 1;
    }
    i == na && i < nb
}

proof fn lemma_lookup_insert(s: Seq<(String, String)>, i: int, e: (String, String), k: Seq<char>)
    requires
        0 <= i <= s.len(),
        !keys_of(s).contains(e.0@),
    ensures
        lookup(s.insert(i, e), k) == if k == e.0@ {
            Some(e.1)
        } else {
            lookup(s, k)
        },
    decreases s.len(),
{
    let t = s.insert(i, e);
    if i == s.len() {
        assert(t.drop_last() =~= s);
    } else {
        assert(t.drop_last() =~= s.drop_last().insert(i, e));
        assert(t.last() == s.last());
        assert(keys_of(s.drop_last()) =~= keys_of(s).drop_last());
        assert(!keys_of(s.drop_last()).contains(e.0@)) by {
            if keys_of(s.drop_last()).contains(e.0@) {
                let j = choose|j: int| 0 <= j < keys_of(s.drop_last()).len() && keys_of(s.drop_last())[j] == e.0@;
                assert(keys_of(s)[j] == e.0@);
            }
        }
        lemma_lookup_insert(s.drop_last(), i, e, k);
        if s.last().0@ == e.0@ {
            assert(keys_of(s)[s.len() - 1] == e.0@);
        }
    }
}

proof fn lemma_sorted_unique(s: Seq<(String, String)>)
    requires
        sorted_env(s),
    ensures
        keys_of(s).no_duplicates(),
{
    assert forall|i: int, j: int| 0 <= i < keys_of(s).len() && 0 <= j < keys_of(s).len() && i != j implies keys_of(s)[i] != keys_of(s)[j] by {
        if i < j {
            lemma_name_less_irreflexive(s[i].0@);
        } else {
            lemma_name_less_irreflexive(s[j].0@);
        }
    }
}

/// Sets `key` to `value`, keeping the names sorted.
pub fn env_put_sorted(env: &mut Vec<(String, String)>, key: String, value: String)
    requires
        sorted_env(old(env)@),
    ensures
        sorted_env(final(env)@),
        env_view(final(env)@) == env_view(old(env)@).insert(key@, value@),
{
    let ghost s = env@;
    proof {
        lemma_sorted_unique(s);
        lemma_lookup_some_index(s, key@);
    }
    let mut i: usize = 0;
    while i < env.len() && name_lt(env[i].0.as_str(), key.as_str())
        invariant
            env@ == s,
            i <= s.len(),
            forall|j: int| 0 <= j < i ==> name_less(#[trigger] s[j].0@, key@),
        decreases s.len() - i,
    {
        i += 1;
    }
    if i < env.len() && text_eq(env[i].0.as_str(), key.as_str()) {
        let k = env[i].0.clone();
        let ghost e = (k, value);
        env.set(i, (k, value));
        proof {
            assert(keys_of(env@) =~= keys_of(s));
            assert forall|x: Seq<char>| #[trigger] lookup(env@, x) == if x == key@ {
                Some(e.1)
            } else {
                lookup(s, x)
            } by {
                lemma_lookup_update(s, i as int, e, x);
            }
            assert(env_view(env@) =~= env_view(s).insert(key@, value@));
        }
    } else {
        let ghost e = (key, value);
        proof {
            if i < s.len() {
                lemma_name_less_total(s[i as int].0@, key@);
            }
            assert(!keys_of(s).contains(key@)) by {
                if keys_of(s).contains(key@) {
                    let j = choose|j: int| 0 <= j < keys_of(s).len() && keys_of(s)[j] == key@;
                    if j < i {
                        lemma_name_less_irreflexive(key@);
                    } else if j > i {
                        lemma_name_less_transitive(key@, s[i as int].0@, s[j].0@);
                        lemma_name_less_irreflexive(key@);
                    }
                }
            }
        }
        env.insert(i, (key, value));
        proof {
            assert forall|a: int, b: int| 0 <= a < b < env@.len() implies name_less(
                env@[a].0@,
                env@[b].0@,
            ) by {
                if b < i {
                } else if b == i {
                    assert(env@[a] == s[a]);
                } else if a < i {
                    assert(env@[b] == s[b - 1]);
                    assert(env@[a] == s[a]);
                    if b - 1 > i {
                        lemma_name_less_transitive(key@, s[i as int].0@, s[b - 1].0@);
                    }
                    lemma_name_less_transitive(s[a].0@, key@, s[b - 1].0@);
                } else if a == i {
                    assert(env@[b] == s[b - 1]);
                    if b - 1 > i {
                        lemma_name_less_transitive(key@, s[i as int].0@, s[b - 1].0@);
                    }
                } else {
                    assert(env@[a] == s[a - 1]);
                    assert(env@[b] == s[b - 1]);
                }
            }
            assert forall|x: Seq<char>| #[trigger] lookup(env@, x) == if x == key@ {
                Some(e.1)
            } else {
                lookup(s, x)
            } by {
                lemma_lookup_insert(s, i as int, e, x);
            }
            assert(env_view(env@) =~= env_view(s).insert(key@, value@));
        }
    }
}

/// The environment that setting each pair of `s` in turn makes of `m`.
pub open spec fn env_fold(m: Map<Seq<char>, Seq<char>>, s: Seq<(String, String)>) -> Map<
    Seq<char>,
    Seq<char>,
>
    decreases s.len(),
{
    if s.len() == 0 {
        m
    } else {
        env_fold(m, s.drop_last()).insert(s.last().0@, s.last().1@)
    }
}

fn put_all(env: &mut Vec<(String, String)>, pairs: &Vec<(String, String)>)
    requires
        sorted_env(old(env)@),
    ensures
        sorted_env(final(env)@),
        env_view(final(env)@) == env_fold(env_view(old(env)@), pairs@),
{
    let ghost m = env_view(env@);
    let mut i: usize = 0;
    while i < pairs.len()
        invariant
            i <= pairs@.len(),
            sorted_env(env@),
            env_view(env@) == env_fold(m, pairs@.subrange(0, i as int)),
        decreases pairs@.len() - i,
    {
        assert(pairs@.subrange(0, i + 1).drop_last() =~= pairs@.subrange(0, i as int));
        env_put_sorted(env, pairs[i].0.clone(), pairs[i].1.clone());
        i += 1;
    }
    assert(pairs@.subrange(0, pairs@.len() as int) =~= pairs@);
}

/// The inherited environment overlaid with the overrides, sorted by name.
pub fn merge_env(inherited: &Vec<(String, String)>, overrides: &Vec<(String, String)>) -> (r: Vec<
    (String, String),
>)
    ensures
        sorted_env(r@),
        env_view(r@) == env_fold(env_fold(Map::empty(), inherited@), overrides@),
{
    let mut env: Vec<(String, String)> = Vec::new();
    assert(env_view(env@) =~= Map::<Seq<char>, Seq<char>>::empty());
    put_all(&mut env, inherited);
    put_all(&mut env, overrides);
    env
}

/// Each pair as `NAME=value`, in order.
pub fn env_block(env: &Vec<(String, String)>) -> (r: Vec<String>)
    ensures
        views(r@) == env@.map_values(|e: (String, String)| e.0@ + "="@ + e.1@),
{
    let mut out: Vec<String> = Vec::new();
    let mut i: usize = 0;
    while i < env.len()
        invariant
            i <= env@.len(),
            views(out@) == env@.subrange(0, i as int).map_values(
                |e: (String, String)| e.0@ + "="@ + e.1@,
            ),
        decreases env@.len() - i,
    {
        let a = concat(env[i].0.as_str(), "=");
        let line = concat(a.as_str(), env[i].1.as_str());
        let ghost before = views(out@);
        out.push(line);
        assert(views(out@) =~= before.push(line@));
        assert(views(out@) =~= env@.subrange(0, i + 1).map_values(
            |e: (String, String)| e.0@ + "="@ + e.1@,
        ));
        i += 1;
    }
    assert(env@.subrange(0, env@.len() as int) =~= env@);
    out
}

} // verus!
