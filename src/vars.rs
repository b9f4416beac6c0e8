//! Template variables: an insertion-overwrites mapping from names to values,
//! and the precedence-ordered merge of configuration, environment and
//! identity fields.

use vstd::prelude::*;
use vstd::utf8::{decode_utf8, encode_utf8, encode_utf8_decode_utf8};

verus! {

/// The pairs of a list of (name, value) strings, as character sequences.
pub open spec fn pairs_view(v: Seq<(String, String)>) -> Seq<(Seq<char>, Seq<char>)> {
    v.map_values(|e: (String, String)| (e.0@, e.1@))
}

/// The mapping that a list of (name, value) pairs denotes when a later pair
/// overwrites an earlier one with the same name.
pub open spec fn pairs_to_map(s: Seq<(Seq<char>, Seq<char>)>) -> Map<Seq<char>, Seq<char>>
    decreases s.len(),
{
    if s.len() == 0 {
        Map::empty()
    } else {
        pairs_to_map(s.drop_last()).insert(s.last().0, s.last().1)
    }
}

pub open spec fn keys_unique(s: Seq<(Seq<char>, Seq<char>)>) -> bool {
    forall|i: int, j: int|
        0 <= i < s.len() && 0 <= j < s.len() && #[trigger] s[i].0 == #[trigger] s[j].0 ==> i == j
}

/// A name is in the mapping exactly when some pair carries it.
pub proof fn lemma_pairs_to_map_dom(s: Seq<(Seq<char>, Seq<char>)>, k: Seq<char>)
    ensures
        pairs_to_map(s).contains_key(k) <==> exists|i: int| 0 <= i < s.len() && s[i].0 == k,
    decreases s.len(),
{
    if s.len() > 0 {
        lemma_pairs_to_map_dom(s.drop_last(), k);
        if exists|i: int| 0 <= i < s.drop_last().len() && s.drop_last()[i].0 == k {
            let i = choose|i: int| 0 <= i < s.drop_last().len() && s.drop_last()[i].0 == k;
            assert(s[i].0 == k);
        }
        if exists|i: int| 0 <= i < s.len() && s[i].0 == k {
            let i = choose|i: int| 0 <= i < s.len() && s[i].0 == k;
            if i < s.len() - 1 {
                assert(s.drop_last()[i].0 == k);
            }
        }
    }
}

/// With unique names, each pair's value is what the mapping gives its name.
pub proof fn lemma_pairs_to_map_lookup(s: Seq<(Seq<char>, Seq<char>)>, i: int)
    requires
        keys_unique(s),
        0 <= i < s.len(),
    ensures
        pairs_to_map(s).contains_key(s[i].0),
        pairs_to_map(s)[s[i].0] == s[i].1,
    decreases s.len(),
{
    if i < s.len() - 1 {
        let d = s.drop_last();
        assert(keys_unique(d)) by {
            assert forall|a: int, b: int|
                0 <= a < d.len() && 0 <= b < d.len() && #[trigger] d[a].0 == #[trigger] d[b].0 implies a
                == b by {
                assert(s[a].0 == s[b].0);
            }
        }
        assert(d[i] == s[i]);
        lemma_pairs_to_map_lookup(d, i);
        assert(s.last().0 != s[i].0) by {
            assert(s[s.len() - 1].0 != s[i].0);
        }
    }
}

/// Replacing the value of a pair overwrites that name in the mapping.
pub proof fn lemma_pairs_to_map_update(s: Seq<(Seq<char>, Seq<char>)>, i: int, v: Seq<char>)
    requires
        keys_unique(s),
        0 <= i < s.len(),
    ensures
        pairs_to_map(s.update(i, (s[i].0, v))) == pairs_to_map(s).insert(s[i].0, v),
    decreases s.len(),
{
    let t = s.update(i, (s[i].0, v));
    if i == s.len() - 1 {
        assert(t.drop_last() == s.drop_last());
        assert(pairs_to_map(t) =~= pairs_to_map(s).insert(s[i].0, v));
    } else {
        let d = s.drop_last();
        assert(keys_unique(d)) by {
            assert forall|a: int, b: int|
                0 <= a < d.len() && 0 <= b < d.len() && #[trigger] d[a].0 == #[trigger] d[b].0 implies a
                == b by {
                assert(s[a].0 == s[b].0);
            }
        }
        assert(t.drop_last() == d.update(i, (d[i].0, v)));
        lemma_pairs_to_map_update(d, i, v);
        assert(s[s.len() - 1].0 != s[i].0);
        assert(pairs_to_map(t) =~= pairs_to_map(s).insert(s[i].0, v));
    }
}

/// The name under which a placeholder's bytes are looked up: the characters
/// that those bytes encode.
pub open spec fn key_of_bytes(n: Seq<u8>) -> Seq<char> {
    decode_utf8(n)
}

/// The mapping holds a name whose UTF-8 encoding is exactly `n`.
pub open spec fn has_byte_key(m: Map<Seq<char>, Seq<char>>, n: Seq<u8>) -> bool {
    encode_utf8(key_of_bytes(n)) == n && m.contains_key(key_of_bytes(n))
}

/// A mapping from variable names to string values, each name held once.
pub struct VarMap {
    entries: Vec<(String, String)>,
}

impl View for VarMap {
    type V = Map<Seq<char>, Seq<char>>;

    closed spec fn view(&self) -> Map<Seq<char>, Seq<char>> {
        pairs_to_map(pairs_view(self.entries@))
    }
}

impl VarMap {
    /// Names are held once each.
    #[verifier::type_invariant]
    closed spec fn wf(&self) -> bool {
        keys_unique(pairs_view(self.entries@))
    }

    pub fn new() -> (r: VarMap)
        ensures
            r@ == Map::<Seq<char>, Seq<char>>::empty(),
    {
        let r = VarMap { entries: Vec::new() };
        assert(pairs_view(r.entries@).len() == 0);
        r
    }

    /// Sets `key` to `value`, replacing any earlier value of `key`.
    pub fn insert(&mut self, key: String, value: String)
        ensures
            final(self)@ == old(self)@.insert(key@, value@),
    {
        proof {
            use_type_invariant(&*self);
        }
        let mut entries: Vec<(String, String)> = Vec::new();
        std::mem::swap(&mut entries, &mut self.entries);
        insert_pair(&mut entries, key, value);
        self.entries = entries;
    }

    /// The value of `key`, if the mapping holds it.
    pub fn get(&self, key: &String) -> (r: Option<&String>)
        ensures
            match r {
                Some(v) => self@.contains_key(key@) && v@ == self@[key@],
                None => !self@.contains_key(key@),
            },
    {
        proof {
            use_type_invariant(self);
        }
        let ghost s = pairs_view(self.entries@);
        let mut i: usize = 0;
        while i < self.entries.len()
            invariant
                i <= self.entries.len(),
                s == pairs_view(self.entries@),
                keys_unique(s),
                forall|j: int| 0 <= j < i ==> s[j].0 != key@,
            decreases self.entries.len() - i,
        {
            if self.entries[i].0 == *key {
                proof {
                    lemma_pairs_to_map_lookup(s, i as int);
                }
                return Some(&self.entries[i].1);
            }
            i = i + 1;
        }
        proof {
            lemma_pairs_to_map_dom(s, key@);
        }
        None
    }

    /// The value of the variable whose name, encoded as UTF-8, is the bytes
    /// `t[lo..hi]`, if the mapping holds one.
    pub fn get_by_bytes(&self, t: &[u8], lo: usize, hi: usize) -> (r: Option<&String>)
        requires
            lo <= hi <= t@.len(),
        ensures
            match r {
                Some(v) => has_byte_key(self@, t@.subrange(lo as int, hi as int)) && v@ == self@[key_of_bytes(
                    t@.subrange(lo as int, hi as int),
                )],
                None => !has_byte_key(self@, t@.subrange(lo as int, hi as int)),
            },
    {
        proof {
            use_type_invariant(self);
        }
        let ghost s = pairs_view(self.entries@);
        let ghost n = t@.subrange(lo as int, hi as int);
        let mut i: usize = 0;
        while i < self.entries.len()
            invariant
                i <= self.entries.len(),
                lo <= hi <= t@.len(),
                n == t@.subrange(lo as int, hi as int),
                s == pairs_view(self.entries@),
                keys_unique(s),
                forall|j: int| 0 <= j < i ==> encode_utf8(#[trigger] s[j].0) != n,
            decreases self.entries.len() - i,
        {
            let kb = self.entries[i].0.as_str().as_bytes();
            if bytes_equal(kb, t, lo, hi) {
                proof {
                    assert(s[i as int].0 == self.entries@[i as int].0@);
                    encode_utf8_decode_utf8(s[i as int].0);
                    lemma_pairs_to_map_lookup(s, i as int);
                }
                return Some(&self.entries[i].1);
            }
            proof {
                assert(s[i as int].0 == self.entries@[i as int].0@);
            }
            i = i + 1;
        }
        proof {
            let k = key_of_bytes(n);
            lemma_pairs_to_map_dom(s, k);
            if pairs_to_map(s).contains_key(k) {
                let j = choose|j: int| 0 <= j < s.len() && s[j].0 == k;
                assert(encode_utf8(s[j].0) != n);
            }
        }
        None
    }
}

/// Sets `key` to `value` in a list of pairs with unique names.
fn insert_pair(entries: &mut Vec<(String, String)>, key: String, value: String)
    requires
        keys_unique(pairs_view(old(entries)@)),
    ensures
        keys_unique(pairs_view(final(entries)@)),
        pairs_to_map(pairs_view(final(entries)@)) == pairs_to_map(pairs_view(old(entries)@)).insert(
            key@,
            value@,
        ),
{
    let ghost s = pairs_view(entries@);
    let n = entries.len();
    let mut i: usize = 0;
    while i < n
        invariant
            n == entries.len(),
            i <= n,
            s == pairs_view(entries@),
            pairs_to_map(s) == pairs_to_map(pairs_view(old(entries)@)),
            keys_unique(s),
            forall|j: int| 0 <= j < i ==> s[j].0 != key@,
        decreases n - i,
    {
        if entries[i].0 == key {
            let ghost k = key@;
            let ghost v = value@;
            let old_key = entries[i].0.clone();
            entries.set(i, (old_key, value));
            proof {
                assert(s[i as int].0 == k);
                lemma_pairs_to_map_update(s, i as int, v);
                assert(pairs_view(entries@) =~= s.update(i as int, (s[i as int].0, v)));
                let t = pairs_view(entries@);
                assert(keys_unique(t)) by {
                    assert forall|a: int, b: int|
                        0 <= a < t.len() && 0 <= b < t.len() && #[trigger] t[a].0
                            == #[trigger] t[b].0 implies a == b by {
                        assert(s[a].0 == s[b].0);
                    }
                }
            }
            return;
        }
        i = i + 1;
    }
    let ghost k = key@;
    let ghost v = value@;
    entries.push((key, value));
    proof {
        let t = pairs_view(entries@);
        assert(t =~= s.push((k, v)));
        assert(t.drop_last() == s);
        assert(keys_unique(t)) by {
            assert forall|a: int, b: int|
                0 <= a < t.len() && 0 <= b < t.len() && #[trigger] t[a].0 == #[trigger] t[b].0 implies a
                == b by {
                if a < s.len() && b < s.len() {
                    assert(s[a].0 == s[b].0);
                } else if a < s.len() {
                    assert(s[a].0 == k);
                } else if b < s.len() {
                    assert(s[b].0 == k);
                }
            }
        }
    }
}

/// Whether `a` holds the same bytes as `t[lo..hi]`.
fn bytes_equal(a: &[u8], t: &[u8], lo: usize, hi: usize) -> (r: bool)
    requires
        lo <= hi <= t@.len(),
    ensures
        r == (a@ == t@.subrange(lo as int, hi as int)),
{
    if a.len() != hi - lo {
        return false;
    }
    let mut i: usize = 0;
    while i < a.len()
        invariant
            a@.len() == hi - lo,
            lo <= hi <= t@.len(),
            i <= a@.len(),
            forall|j: int| 0 <= j < i ==> a@[j] == t@[lo + j],
        decreases a@.len() - i,
    {
        if a[i] != t[lo + i] {
            assert(a@[i as int] != t@.subrange(lo as int, hi as int)[i as int]);
            return false;
        }
        i = i + 1;
    }
    assert(a@ =~= t@.subrange(lo as int, hi as int));
    true
}

/// The reserved name bound to the server's name.
pub open spec fn server_name_key() -> Seq<char> {
    "SERVER_NAME"@
}

/// The reserved name bound to the server's target version.
pub open spec fn server_version_key() -> Seq<char> {
    "SERVER_VERSION"@
}

/// The merged mapping: configuration first, then the environment over it, and
/// the two identity fields last, over both.
pub open spec fn resolved(
    config: Seq<(Seq<char>, Seq<char>)>,
    env: Seq<(Seq<char>, Seq<char>)>,
    name: Seq<char>,
    version: Seq<char>,
) -> Map<Seq<char>, Seq<char>> {
    pairs_to_map(config).union_prefer_right(pairs_to_map(env)).insert(server_name_key(), name).insert(
        server_version_key(),
        version,
    )
}

/// Merges the server's configured variables, the process environment and the
/// two identity fields, later sources overwriting earlier ones.
pub fn resolve(
    config: &Vec<(String, String)>,
    env: &Vec<(String, String)>,
    name: &String,
    version: &String,
) -> (r: VarMap)
    ensures
        r@ == resolved(pairs_view(config@), pairs_view(env@), name@, version@),
{
    let ghost c = pairs_view(config@);
    let ghost e = pairs_view(env@);
    let mut vars = VarMap::new();
    let mut i: usize = 0;
    while i < config.len()
        invariant
            i <= config@.len(),
            c == pairs_view(config@),
            vars@ == pairs_to_map(c.take(i as int)),
        decreases config@.len() - i,
    {
        vars.insert(config[i].0.clone(), config[i].1.clone());
        proof {
            assert(c.take(i + 1).drop_last() =~= c.take(i as int));
        }
        i = i + 1;
    }
    assert(c.take(config@.len() as int) =~= c);
    let mut i: usize = 0;
    while i < env.len()
        invariant
            i <= env@.len(),
            e == pairs_view(env@),
            vars@ == pairs_to_map(c).union_prefer_right(pairs_to_map(e.take(i as int))),
        decreases env@.len() - i,
    {
        let ghost before = vars@;
        vars.insert(env[i].0.clone(), env[i].1.clone());
        proof {
            assert(e.take(i + 1).drop_last() =~= e.take(i as int));
            assert(vars@ =~= pairs_to_map(c).union_prefer_right(pairs_to_map(e.take(i + 1))));
        }
        i = i + 1;
    }
    assert(e.take(env@.len() as int) =~= e);
    vars.insert("SERVER_NAME".to_owned(), name.clone());
    vars.insert("SERVER_VERSION".to_owned(), version.clone());
    vars
}

/// Identity fields always carry the server's own name and version, whatever
/// the configuration or the environment say under the same names.
pub proof fn identity_fields_take_precedence(
    config: Seq<(Seq<char>, Seq<char>)>,
    env: Seq<(Seq<char>, Seq<char>)>,
    name: Seq<char>,
    version: Seq<char>,
)
    ensures
        resolved(config, env, name, version).contains_key(server_name_key()),
        resolved(config, env, name, version)[server_name_key()] == name,
        resolved(config, env, name, version).contains_key(server_version_key()),
        resolved(config, env, name, version)[server_version_key()] == version,
{
    reveal_strlit("SERVER_NAME");
    reveal_strlit("SERVER_VERSION");
    assert(server_name_key().len() != server_version_key().len());
}

/// An environment entry whose name is not an identity field overrides a
/// configuration entry of the same name.
pub proof fn environment_overrides_configuration(
    config: Seq<(Seq<char>, Seq<char>)>,
    env: Seq<(Seq<char>, Seq<char>)>,
    name: Seq<char>,
    version: Seq<char>,
    key: Seq<char>,
)
    requires
        pairs_to_map(env).contains_key(key),
        key != server_name_key(),
        key != server_version_key(),
    ensures
        resolved(config, env, name, version).contains_key(key),
        resolved(config, env, name, version)[key] == pairs_to_map(env)[key],
{
}


/// With names held once each, the environment's mapping depends on which
/// pairs it holds and not on their order, so neither does the merge.
pub proof fn merge_ignores_environment_order(
    config: Seq<(Seq<char>, Seq<char>)>,
    env1: Seq<(Seq<char>, Seq<char>)>,
    env2: Seq<(Seq<char>, Seq<char>)>,
    name: Seq<char>,
    version: Seq<char>,
)
    requires
        keys_unique(env1),
        keys_unique(env2),
        env1.to_set() == env2.to_set(),
    ensures
        resolved(config, env1, name, version) == resolved(config, env2, name, version),
{
    assert forall|k: Seq<char>|
        #[trigger] pairs_to_map(env1).contains_key(k) implies pairs_to_map(env2).contains_key(k)
            && pairs_to_map(env2)[k] == pairs_to_map(env1)[k] by {
        lemma_pairs_to_map_dom(env1, k);
        let i = choose|i: int| 0 <= i < env1.len() && env1[i].0 == k;
        assert(env1.to_set().contains(env1[i]));
        let j = choose|j: int| 0 <= j < env2.len() && env2[j] == env1[i];
        lemma_pairs_to_map_lookup(env1, i);
        lemma_pairs_to_map_lookup(env2, j);
    }
    assert forall|k: Seq<char>|
        #[trigger] pairs_to_map(env2).contains_key(k) implies pairs_to_map(env1).contains_key(k) by {
        lemma_pairs_to_map_dom(env2, k);
        let j = choose|j: int| 0 <= j < env2.len() && env2[j].0 == k;
        assert(env2.to_set().contains(env2[j]));
        let i = choose|i: int| 0 <= i < env1.len() && env1[i] == env2[j];
        lemma_pairs_to_map_lookup(env1, i);
    }
    assert(pairs_to_map(env1) =~= pairs_to_map(env2));
}

} // verus!
