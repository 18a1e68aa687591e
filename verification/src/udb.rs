use vstd::prelude::*;

use crate::unicode::chars_of;

verus! {

/// The key whose value clients cannot set.
pub open spec fn version_key() -> Seq<char> {
    seq!['v', 'e', 'r', 's', 'i', 'o', 'n']
}

/// The value of the version key.
pub open spec fn version_text() -> Seq<char> {
    "UnusualDP ver. 0.0.1"@
}

/// The contents of the entries as a map, a later entry of a key winning.
pub open spec fn db_map(e: Seq<(Seq<char>, Seq<char>)>) -> Map<Seq<char>, Seq<char>>
    decreases e.len(),
{
    if e.len() == 0 {
        Map::empty()
    } else {
        db_map(e.drop_last()).insert(e.last().0, e.last().1)
    }
}

/// The index of the first `=` in `s`, if any.
pub open spec fn first_eq(s: Seq<char>) -> Option<int>
    decreases s.len(),
{
    if s.len() == 0 {
        None
    } else if s[0] == '=' {
        Some(0)
    } else {
        match first_eq(s.drop_first()) {
            Some(k) => Some(k + 1),
            None => None,
        }
    }
}

/// What a request does to the database `m`, and the reply it gets: `KEY=VALUE`
/// (split at the first `=`) sets the key, but for the version key, and gets no
/// reply; any other request gets the key and is answered `KEY=VALUE` where the
/// key is there.
pub open spec fn udb_step(m: Map<Seq<char>, Seq<char>>, msg: Seq<char>) -> (
    Map<Seq<char>, Seq<char>>,
    Option<Seq<char>>,
) {
    match first_eq(msg) {
        Some(i) => {
            let key = msg.take(i);
            if key != version_key() {
                (m.insert(key, msg.skip(i + 1)), None)
            } else {
                (m, None)
            }
        },
        None => if m.contains_key(msg) {
            (m, Some(msg + seq!['='] + m[msg]))
        } else {
            (m, None)
        },
    }
}

/// The key-value store.
pub struct Database {
    pub entries: Vec<(Vec<char>, Vec<char>)>,
}

pub open spec fn entries_view(e: Seq<(Vec<char>, Vec<char>)>) -> Seq<(Seq<char>, Seq<char>)> {
    e.map_values(|x: (Vec<char>, Vec<char>)| (x.0@, x.1@))
}

impl View for Database {
    type V = Map<Seq<char>, Seq<char>>;

    open spec fn view(&self) -> Map<Seq<char>, Seq<char>> {
        db_map(entries_view(self.entries@))
    }
}

fn copy_chars(s: &[char]) -> (r: Vec<char>)
    ensures
        r@ == s@,
{
    let mut r: Vec<char> = Vec::new();
    let mut i: usize = 0;
    while i < s.len()
        invariant
            i <= s@.len(),
            r@ == s@.take(i as int),
        decreases s@.len() - i,
    {
        r.push(s[i]);
        assert(s@.take(i + 1) =~= s@.take(i as int).push(s@[i as int]));
        i = i + 1;
    }
    assert(s@.take(s@.len() as int) =~= s@);
    r
}

fn chars_equal(a: &[char], b: &[char]) -> (r: bool)
    ensures
        r == (a@ == b@),
{
    if a.len() != b.len() {
        return false;
    }
    let mut i: usize = 0;
    while i < a.len()
        invariant
            a@.len() == b@.len(),
            i <= a@.len(),
            forall|j: int| 0 <= j < i ==> a@[j] == b@[j],
        decreases a@.len() - i,
    {
        if a[i] != b[i] {
            return false;
        }
        i = i + 1;
    }
    assert(a@ =~= b@);
    true
}

proof fn lemma_first_eq(s: Seq<char>, k: int)
    requires
        0 <= k <= s.len(),
        forall|j: int| 0 <= j < k ==> s[j] != '=',
    ensures
        k < s.len() && s[k] == '=' ==> first_eq(s) == Some(k),
        k == s.len() ==> first_eq(s) is None,
    decreases k,
{
    if k > 0 {
        lemma_first_eq(s.drop_first(), k - 1);
    }
}

proof fn lemma_first_eq_none(s: Seq<char>)
    ensures
        first_eq(s) is None ==> forall|j: int| 0 <= j < s.len() ==> s[j] != '=',
    decreases s.len(),
{
    if s.len() > 0 {
        lemma_first_eq_none(s.drop_first());
        if first_eq(s) is None {
            assert forall|j: int| 0 <= j < s.len() implies s[j] != '=' by {
                if j > 0 {
                    assert(s[j] == s.drop_first()[j - 1]);
                }
            }
        }
    }
}

/// Where the last entry of `key` is, if any.
pub open spec fn last_entry(e: Seq<(Seq<char>, Seq<char>)>, key: Seq<char>) -> Option<int>
    decreases e.len(),
{
    if e.len() == 0 {
        None
    } else if e.last().0 == key {
        Some(e.len() - 1)
    } else {
        last_entry(e.drop_last(), key)
    }
}

proof fn lemma_last_entry(e: Seq<(Seq<char>, Seq<char>)>, key: Seq<char>)
    ensures
        match last_entry(e, key) {
            Some(i) => 0 <= i < e.len() && e[i].0 == key && db_map(e).contains_key(key)
                && db_map(e)[key] == e[i].1,
            None => !db_map(e).contains_key(key),
        },
    decreases e.len(),
{
    if e.len() > 0 {
        lemma_last_entry(e.drop_last(), key);
    }
}

proof fn lemma_last_entry_none(e: Seq<(Seq<char>, Seq<char>)>, key: Seq<char>)
    ensures
        last_entry(e, key) is None ==> forall|i: int| 0 <= i < e.len() ==> (#[trigger] e[i]).0 != key,
    decreases e.len(),
{
    if e.len() > 0 {
        lemma_last_entry_none(e.drop_last(), key);
        if last_entry(e, key) is None {
            assert forall|i: int| 0 <= i < e.len() implies (#[trigger] e[i]).0 != key by {
                if i < e.len() - 1 {
                    assert(e[i] == e.drop_last()[i]);
                }
            }
        }
    }
}

proof fn lemma_update_last_entry(e: Seq<(Seq<char>, Seq<char>)>, i: int, key: Seq<char>, val: Seq<char>)
    requires
        last_entry(e, key) == Some(i),
    ensures
        db_map(e.update(i, (key, val))) == db_map(e).insert(key, val),
    decreases e.len(),
{
    lemma_last_entry(e, key);
    let u = e.update(i, (key, val));
    if i == e.len() - 1 {
        assert(u.drop_last() =~= e.drop_last());
        assert(db_map(u) =~= db_map(e).insert(key, val));
    } else {
        let d = e.drop_last();
        assert(last_entry(d, key) == Some(i));
        lemma_update_last_entry(d, i, key, val);
        assert(u.drop_last() =~= d.update(i, (key, val)));
        assert(db_map(u) =~= db_map(e).insert(key, val));
    }
}

/// No key has two entries.
pub open spec fn keys_distinct(e: Seq<(Seq<char>, Seq<char>)>) -> bool {
    forall|i: int, j: int| 0 <= i < j < e.len() ==> (#[trigger] e[i]).0 != (#[trigger] e[j]).0
}

impl Database {
    /// A database that holds the version alone.
    pub fn new() -> (d: Self)
        ensures
            d@ == Map::<Seq<char>, Seq<char>>::empty().insert(version_key(), version_text()),
            keys_distinct(entries_view(d.entries@)),
    {
        let k = chars_of("version");
        let v = chars_of("UnusualDP ver. 0.0.1");
        proof {
            reveal_strlit("version");
        }
        assert(k@ =~= version_key());
        let mut entries: Vec<(Vec<char>, Vec<char>)> = Vec::new();
        entries.push((k, v));
        let d = Database { entries };
        let ghost ev = entries_view(d.entries@);
        assert(ev.drop_last() =~= Seq::<(Seq<char>, Seq<char>)>::empty());
        assert(db_map(ev.drop_last()) == Map::<Seq<char>, Seq<char>>::empty());
        assert(ev.last() == (version_key(), version_text()));
        assert(d@ =~= Map::<Seq<char>, Seq<char>>::empty().insert(version_key(), version_text()));
        d
    }

    fn find_last(&self, key: &[char]) -> (r: Option<usize>)
        ensures
            r matches Some(i) ==> last_entry(entries_view(self.entries@), key@) == Some(i as int),
            r is None ==> last_entry(entries_view(self.entries@), key@) is None,
    {
        let ghost ev = entries_view(self.entries@);
        let mut k: usize = self.entries.len();
        assert(ev.take(k as int) =~= ev);
        while k > 0
            invariant
                k <= self.entries@.len(),
                ev == entries_view(self.entries@),
                last_entry(ev, key@) == last_entry(ev.take(k as int), key@),
            decreases k,
        {
            assert(ev.take(k as int).drop_last() =~= ev.take(k - 1));
            assert(ev.take(k as int).last() == ev[k - 1]);
            if chars_equal(self.entries[k - 1].0.as_slice(), key) {
                return Some(k - 1);
            }
            k = k - 1;
        }
        None
    }

    /// Takes in a request and returns the reply to send, if any.
    pub fn handle(&mut self, msg: &str) -> (reply: Option<Vec<char>>)
        ensures
            final(self)@ == udb_step(old(self)@, msg@).0,
            reply matches Some(r) ==> udb_step(old(self)@, msg@).1 == Some(r@),
            reply is None ==> udb_step(old(self)@, msg@).1 is None,
            keys_distinct(entries_view(old(self).entries@)) ==> keys_distinct(
                entries_view(final(self).entries@),
            ),
    {
        let cs = chars_of(msg);
        let n = cs.len();
        let mut i: usize = 0;
        while i < n && cs[i] != '='
            invariant
                n == cs@.len(),
                i <= n,
                forall|j: int| 0 <= j < i ==> cs@[j] != '=',
            decreases n - i,
        {
            i = i + 1;
        }
        proof {
            lemma_first_eq(cs@, i as int);
        }
        if i < n {
            let key = copy_chars(&cs.as_slice()[0..i]);
            let val = copy_chars(&cs.as_slice()[i + 1..n]);
            assert(key@ =~= cs@.take(i as int));
            assert(val@ =~= cs@.skip(i + 1));
            let version: Vec<char> = vec!['v', 'e', 'r', 's', 'i', 'o', 'n'];
            assert(version@ =~= version_key());
            if chars_equal(key.as_slice(), version.as_slice()) {
                return None;
            }
            let ghost ev = entries_view(self.entries@);
            match self.find_last(key.as_slice()) {
                Some(k) => {
                    proof {
                        lemma_last_entry(ev, key@);
                        lemma_update_last_entry(ev, k as int, key@, val@);
                    }
                    let ghost kv = key@;
                    let ghost vv = val@;
                    self.entries.set(k, (key, val));
                    assert(entries_view(self.entries@) =~= ev.update(k as int, (kv, vv)));
                    assert(keys_distinct(ev) ==> keys_distinct(entries_view(self.entries@))) by {
                        let nv = entries_view(self.entries@);
                        if keys_distinct(ev) {
                            assert forall|a: int, b: int| 0 <= a < b < nv.len() implies (
                            #[trigger] nv[a]).0 != (#[trigger] nv[b]).0 by {
                                assert(nv[a].0 == ev[a].0 && nv[b].0 == ev[b].0);
                            }
                        }
                    }
                },
                None => {
                    let ghost kv = key@;
                    let ghost vv = val@;
                    self.entries.push((key, val));
                    assert(entries_view(self.entries@).drop_last() =~= ev);
                    assert(entries_view(self.entries@).last() == (kv, vv));
                    proof {
                        lemma_last_entry_none(ev, kv);
                        let nv = entries_view(self.entries@);
                        if keys_distinct(ev) {
                            assert forall|a: int, b: int| 0 <= a < b < nv.len() implies (
                            #[trigger] nv[a]).0 != (#[trigger] nv[b]).0 by {
                                assert(nv[a] == ev[a]);
                                if b < ev.len() {
                                    assert(nv[b] == ev[b]);
                                }
                            }
                        }
                    }
                },
            }
            None
        } else {
            assert(cs@ == msg@);
            match self.find_last(cs.as_slice()) {
                Some(k) => {
                    proof {
                        lemma_last_entry(entries_view(self.entries@), cs@);
                    }
                    let mut r = copy_chars(cs.as_slice());
                    r.push('=');
                    let v = &self.entries[k].1;
                    let mut j: usize = 0;
                    let ghost base = r@;
                    while j < v.len()
                        invariant
                            j <= v@.len(),
                            r@ == base + v@.take(j as int),
                        decreases v@.len() - j,
                    {
                        r.push(v[j]);
                        assert(v@.take(j + 1) =~= v@.take(j as int).push(v@[j as int]));
                        j = j + 1;
                    }
                    assert(v@.take(v@.len() as int) =~= v@);
                    assert(r@ =~= msg@ + seq!['='] + self@[msg@]);
                    Some(r)
                },
                None => {
                    proof {
                        lemma_last_entry(entries_view(self.entries@), cs@);
                    }
                    None
                },
            }
        }
    }
}

/// What a get gives back of a set: after `KEY=VALUE` is taken in, where the key
/// holds no `=` and is not the version key, the request `KEY` is answered
/// `KEY=VALUE`.
pub proof fn lemma_get_after_set(m: Map<Seq<char>, Seq<char>>, key: Seq<char>, val: Seq<char>)
    requires
        first_eq(key) is None,
        key != version_key(),
    ensures
        udb_step(udb_step(m, key + seq!['='] + val).0, key).1 == Some(key + seq!['='] + val),
{
    let msg = key + seq!['='] + val;
    lemma_first_eq_none(key);
    assert forall|j: int| 0 <= j < key.len() implies msg[j] != '=' by {
        assert(msg[j] == key[j]);
    }
    lemma_first_eq(msg, key.len() as int);
    assert(msg.take(key.len() as int) =~= key);
    assert(msg.skip(key.len() as int + 1) =~= val);
}

/// The version is never changed: whatever request comes, the version key keeps its
/// value.
pub proof fn lemma_version_kept(m: Map<Seq<char>, Seq<char>>, msg: Seq<char>)
    ensures
        udb_step(m, msg).0.contains_key(version_key()) == m.contains_key(version_key()),
        m.contains_key(version_key()) ==> udb_step(m, msg).0[version_key()] == m[version_key()],
{
}

} // verus!
