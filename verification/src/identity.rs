//! Identity resolver: the append-only mapping from locally minted
//! identifiers to the server-assigned identifiers learned as creations are
//! acknowledged.
//!
//! A local identifier is a placeholder a disconnected client mints for a
//! resource the server has not seen yet: a path segment made of digits
//! alone.  Once the server acknowledges the create, the resolver records
//! the authoritative identifier, and every later endpoint mentioning the
//! placeholder is rewritten to use it.

use vstd::prelude::*;
use vstd::string::*;
use crate::record::{find_char, first_at, lemma_first_at};

verus! {

/// A local identifier resolved twice to different server identifiers:
/// client and server state have drifted apart.
#[derive(Debug)]
pub enum SyncError {
    ConsistencyViolation { local: String },
}

/// The mapping an entry list stands for (later entries would win, but the
/// resolver keeps keys unique).
pub open spec fn entries_map(s: Seq<(String, String)>) -> Map<Seq<char>, Seq<char>>
    decreases s.len(),
{
    if s.len() == 0 {
        Map::empty()
    } else {
        entries_map(s.drop_last()).insert(s.last().0@, s.last().1@)
    }
}

proof fn lemma_entries_map_domain(s: Seq<(String, String)>)
    ensures
        forall|k: Seq<char>|
            #[trigger] entries_map(s).contains_key(k) <==> (exists|i: int|
                0 <= i < s.len() && s[i].0@ == k),
    decreases s.len(),
{
    if s.len() > 0 {
        lemma_entries_map_domain(s.drop_last());
        assert forall|k: Seq<char>| #[trigger]
            entries_map(s).contains_key(k) implies (exists|i: int|
            0 <= i < s.len() && s[i].0@ == k) by {
            if k == s.last().0@ {
                assert(s[s.len() - 1].0@ == k);
            } else {
                assert(entries_map(s.drop_last()).contains_key(k));
                let i = choose|i: int| 0 <= i < s.drop_last().len() && s.drop_last()[i].0@ == k;
                assert(s.drop_last()[i] == s[i]);
                assert(s[i].0@ == k);
            }
        }
        assert forall|k: Seq<char>| (exists|i: int|
            0 <= i < s.len() && s[i].0@ == k) implies #[trigger] entries_map(s).contains_key(k) by {
            let i = choose|i: int| 0 <= i < s.len() && s[i].0@ == k;
            if i < s.len() - 1 {
                assert(0 <= i < s.drop_last().len() && s.drop_last()[i].0@ == k);
                assert(entries_map(s.drop_last()).contains_key(k));
            } else {
                assert(k == s.last().0@);
            }
        }
    }
}

proof fn lemma_entries_map_value(s: Seq<(String, String)>, i: int)
    requires
        0 <= i < s.len(),
        forall|j: int| i < j < s.len() ==> s[j].0@ != s[i].0@,
    ensures
        entries_map(s).contains_key(s[i].0@),
        entries_map(s)[s[i].0@] == s[i].1@,
    decreases s.len(),
{
    if i == s.len() - 1 {
    } else {
        assert(forall|j: int| i < j < s.drop_last().len() ==> s.drop_last()[j].0@ != s[i].0@);
        assert(s.drop_last()[i] == s[i]);
        lemma_entries_map_value(s.drop_last(), i);
        assert(s.last().0@ != s[i].0@);
    }
}

/// The append-only map from local identifiers to server identifiers.
pub struct IdentityMap {
    entries: Vec<(String, String)>,
}

impl View for IdentityMap {
    type V = Map<Seq<char>, Seq<char>>;

    closed spec fn view(&self) -> Map<Seq<char>, Seq<char>> {
        entries_map(self.entries@)
    }
}

impl IdentityMap {
    /// Keys stay unique, so each local identifier has one binding.
    pub closed spec fn wf(&self) -> bool {
        forall|i: int, j: int|
            0 <= i < j < self.entries@.len() ==> self.entries@[i].0@ != self.entries@[j].0@
    }

    /// An empty resolver: nothing is mapped.
    pub fn new() -> (r: IdentityMap)
        ensures
            r.wf(),
            r@ == Map::<Seq<char>, Seq<char>>::empty(),
    {
        IdentityMap { entries: Vec::new() }
    }

    /// The server identifier recorded for a local identifier, if any.
    pub fn resolve(&self, local: &String) -> (r: Option<String>)
        requires
            self.wf(),
        ensures
            match r {
                Some(server) => self@.contains_key(local@) && server@ == self@[local@],
                None => !self@.contains_key(local@),
            },
    {
        proof {
            lemma_entries_map_domain(self.entries@);
        }
        let mut i: usize = 0;
        while i < self.entries.len()
            invariant
                self.wf(),
                i <= self.entries@.len(),
                forall|j: int| 0 <= j < i ==> self.entries@[j].0@ != local@,
            decreases self.entries@.len() - i,
        {
            if self.entries[i].0 == *local {
                proof {
                    assert forall|j: int|
                        i < j < self.entries@.len() implies self.entries@[j].0@ != self.entries@[
                        i as int
                    ].0@ by {
                        assert(self.entries@[i as int].0@ != self.entries@[j].0@);
                    }
                    lemma_entries_map_value(self.entries@, i as int);
                }
                return Some(self.entries[i].1.clone());
            }
            i += 1;
        }
        None
    }

    /// Records that a local identifier was created on the server under
    /// `server`.  Recording the same binding again changes nothing;
    /// recording a different server identifier for an already-bound local
    /// identifier is a consistency violation and changes nothing either.
    pub fn record(&mut self, local: String, server: String) -> (r: Result<(), SyncError>)
        requires
            old(self).wf(),
        ensures
            final(self).wf(),
            match r {
                Ok(()) => {
                    if old(self)@.contains_key(local@) {
                        &&& old(self)@[local@] == server@
                        &&& final(self)@ == old(self)@
                    } else {
                        final(self)@ == old(self)@.insert(local@, server@)
                    }
                },
                Err(SyncError::ConsistencyViolation { local: l }) => {
                    &&& l@ == local@
                    &&& old(self)@.contains_key(local@)
                    &&& old(self)@[local@] != server@
                    &&& final(self)@ == old(self)@
                },
            },
    {
        proof {
            lemma_entries_map_domain(self.entries@);
        }
        let mut i: usize = 0;
        while i < self.entries.len()
            invariant
                self == old(self),
                old(self).wf(),
                i <= self.entries@.len(),
                forall|j: int| 0 <= j < i ==> self.entries@[j].0@ != local@,
            decreases self.entries@.len() - i,
        {
            if self.entries[i].0 == local {
                proof {
                    assert forall|j: int|
                        i < j < self.entries@.len() implies self.entries@[j].0@ != self.entries@[
                        i as int
                    ].0@ by {
                        assert(self.entries@[i as int].0@ != self.entries@[j].0@);
                    }
                    lemma_entries_map_value(self.entries@, i as int);
                }
                if self.entries[i].1 == server {
                    return Ok(());
                } else {
                    return Err(SyncError::ConsistencyViolation { local });
                }
            }
            i += 1;
        }
        let ghost l = local@;
        let ghost v = server@;
        let ghost before = self.entries@;
        self.entries.push((local, server));
        proof {
            assert(self.entries@.drop_last() =~= before);
            assert(self.entries@.last().0@ == l && self.entries@.last().1@ == v);
            assert(entries_map(self.entries@) == entries_map(before).insert(l, v));
            assert forall|a: int, b: int|
                0 <= a < b < self.entries@.len() implies self.entries@[a].0@
                != self.entries@[b].0@ by {
                if b == self.entries@.len() - 1 {
                    assert(before[a].0@ != l);
                } else {
                    assert(before[a].0@ != before[b].0@);
                }
            }
        }
        Ok(())
    }
}

/// A digit character.
pub open spec fn is_digit(c: char) -> bool {
    '0' <= c && c <= '9'
}

/// A local-identifier token: a nonempty path segment made of digits alone.
/// Local identifiers are minted as plain counters, so a digit-only segment
/// is read as one; server-assigned identifiers carry letters.
pub open spec fn is_local_token(seg: Seq<char>) -> bool {
    seg.len() > 0 && forall|i: int| 0 <= i < seg.len() ==> is_digit(#[trigger] seg[i])
}

/// The `/`-separated segments of `s` from `from` on.
pub open spec fn split_from(s: Seq<char>, from: int) -> Seq<Seq<char>>
    decreases s.len() - from,
    when 0 <= from <= s.len()
    via split_from_decreases
{
    let i = first_at(s, '/', from);
    if i >= s.len() {
        seq![s.subrange(from, s.len() as int)]
    } else {
        seq![s.subrange(from, i)] + split_from(s, i + 1)
    }
}

#[via_fn]
proof fn split_from_decreases(s: Seq<char>, from: int) {
    lemma_first_at(s, '/', from);
}

/// The `/`-separated segments of a path.
pub open spec fn split_path_model(s: Seq<char>) -> Seq<Seq<char>> {
    split_from(s, 0)
}

/// Segments joined back with `/` between them.
pub open spec fn join_model(parts: Seq<Seq<char>>) -> Seq<char>
    decreases parts.len(),
{
    if parts.len() == 0 {
        Seq::empty()
    } else if parts.len() == 1 {
        parts[0]
    } else {
        parts[0] + seq!['/'] + join_model(parts.drop_first())
    }
}

proof fn lemma_join_push(parts: Seq<Seq<char>>, p: Seq<char>)
    requires
        parts.len() >= 1,
    ensures
        join_model(parts.push(p)) == join_model(parts) + seq!['/'] + p,
    decreases parts.len(),
{
    if parts.len() == 1 {
        assert(parts.push(p)[0] == parts[0]);
        assert(parts.push(p).drop_first() =~= seq![p]);
        assert(join_model(seq![p]) == p);
    } else {
        assert(parts.push(p)[0] == parts[0]);
        assert(parts.push(p).drop_first() =~= parts.drop_first().push(p));
        lemma_join_push(parts.drop_first(), p);
    }
}

/// One segment after rewriting: a mapped local token becomes its server
/// identifier; everything else stays as it is.
pub open spec fn rewrite_seg(m: Map<Seq<char>, Seq<char>>, seg: Seq<char>) -> Seq<char> {
    if is_local_token(seg) && m.contains_key(seg) {
        m[seg]
    } else {
        seg
    }
}

/// A whole endpoint after rewriting every mapped local token.
pub open spec fn rewrite_model(m: Map<Seq<char>, Seq<char>>, s: Seq<char>) -> Seq<char> {
    join_model(split_path_model(s).map_values(|seg: Seq<char>| rewrite_seg(m, seg)))
}

/// The local tokens of an endpoint that have no binding yet, in order.
pub open spec fn unresolved_model(m: Map<Seq<char>, Seq<char>>, s: Seq<char>) -> Seq<Seq<char>> {
    split_path_model(s).filter(|seg: Seq<char>| is_local_token(seg) && !m.contains_key(seg))
}

/// Whether a path segment is a local-identifier token.
pub fn local_token(seg: &str) -> (r: bool)
    ensures
        r == is_local_token(seg@),
{
    let n = seg.unicode_len();
    if n == 0 {
        return false;
    }
    let mut i: usize = 0;
    while i < n
        invariant
            i <= n,
            n == seg@.len(),
            forall|j: int| 0 <= j < i ==> is_digit(#[trigger] seg@[j]),
        decreases n - i,
    {
        let c = seg.get_char(i);
        if c < '0' || c > '9' {
            return false;
        }
        i += 1;
    }
    true
}

/// The `/`-separated segments of a path, as executable code.
pub fn split_path(s: &str) -> (parts: Vec<String>)
    ensures
        parts@.map_values(|p: String| p@) == split_path_model(s@),
        parts@.len() >= 1,
{
    let n = s.unicode_len();
    let mut parts: Vec<String> = Vec::new();
    let mut start: usize = 0;
    let mut finished = false;
    while !finished
        invariant
            start <= n,
            n == s@.len(),
            !finished ==> split_path_model(s@) == parts@.map_values(|p: String| p@) + split_from(
                s@,
                start as int,
            ),
            finished ==> parts@.map_values(|p: String| p@) == split_path_model(s@),
            finished ==> parts@.len() >= 1,
        decreases n - start + (if finished { 0int } else { 1int }),
    {
        proof {
            lemma_first_at(s@, '/', start as int);
        }
        let i = find_char(s, '/', start);
        let seg = s.substring_char(start, i).to_owned();
        parts.push(seg);
        proof {
            let pv = parts@.map_values(|p: String| p@);
            assert(pv =~= parts@.drop_last().map_values(|p: String| p@).push(
                parts@.last()@,
            ));
        }
        if i == n {
            finished = true;
            proof {
                assert(split_from(s@, start as int) =~= seq![
                    s@.subrange(start as int, s@.len() as int),
                ]);
                assert(parts@.map_values(|p: String| p@) =~= split_path_model(s@));
            }
        } else {
            proof {
                assert(split_from(s@, start as int) =~= seq![
                    s@.subrange(start as int, i as int),
                ] + split_from(s@, i as int + 1));
                assert(parts@.map_values(|p: String| p@) + split_from(s@, i as int + 1)
                    =~= split_path_model(s@));
            }
            start = i + 1;
        }
    }
    parts
}

impl IdentityMap {
    /// Rewrites an endpoint: every local token with a binding is replaced
    /// by its server identifier, every other segment is kept, and the local
    /// tokens still without a binding come back separately, in order.
    pub fn rewrite(&self, endpoint: &str) -> (r: (String, Vec<String>))
        requires
            self.wf(),
        ensures
            r.0@ == rewrite_model(self@, endpoint@),
            r.1@.map_values(|p: String| p@) == unresolved_model(self@, endpoint@),
    {
        broadcast use vstd::seq_lib::group_seq_lib_default;

        let parts = split_path(endpoint);
        let ghost pm = parts@.map_values(|p: String| p@);
        let ghost rw = |seg: Seq<char>| rewrite_seg(self@, seg);
        let ghost miss = |seg: Seq<char>| is_local_token(seg) && !self@.contains_key(seg);
        let mut out = String::new();
        let mut unresolved: Vec<String> = Vec::new();
        let mut k: usize = 0;
        proof {
            reveal_with_fuel(Seq::filter, 2);
            assert(pm.take(0) =~= Seq::<Seq<char>>::empty());
            assert(pm.take(0).map_values(rw) =~= Seq::<Seq<char>>::empty());
            assert(pm.take(0).filter(miss) =~= Seq::<Seq<char>>::empty());
        }
        while k < parts.len()
            invariant
                self.wf(),
                k <= parts@.len(),
                pm == parts@.map_values(|p: String| p@),
                pm.len() >= 1,
                rw == (|seg: Seq<char>| rewrite_seg(self@, seg)),
                miss == (|seg: Seq<char>| is_local_token(seg) && !self@.contains_key(seg)),
                out@ == join_model(pm.take(k as int).map_values(rw)),
                unresolved@.map_values(|p: String| p@) == pm.take(k as int).filter(miss),
            decreases parts@.len() - k,
        {
            let seg = &parts[k];
            proof {
                assert(pm[k as int] == seg@);
            }
            if k > 0 {
                proof {
                    reveal_strlit("/");
                    assert("/"@ =~= seq!['/']);
                }
                out.append("/");
            }
            if local_token(seg.as_str()) {
                match self.resolve(seg) {
                    Some(server) => {
                        out.append(server.as_str());
                    },
                    None => {
                        out.append(seg.as_str());
                        unresolved.push(seg.clone());
                    },
                }
            } else {
                out.append(seg.as_str());
            }
            proof {
                let pre = pm.take(k as int);
                let now = pm.take(k as int + 1);
                assert(now =~= pre.push(pm[k as int]));
                assert(now.map_values(rw) =~= pre.map_values(rw).push(rw(pm[k as int])));
                if k > 0 {
                    lemma_join_push(pre.map_values(rw), rw(pm[k as int]));
                } else {
                    assert(join_model(seq![rw(pm[0])]) == rw(pm[0]));
                    assert(now.map_values(rw) =~= seq![rw(pm[0])]);
                }
                assert(out@ == join_model(now.map_values(rw)));
                Seq::filter_distributes_over_add(pre, seq![pm[k as int]], miss);
                assert(pre + seq![pm[k as int]] =~= now);
                reveal_with_fuel(Seq::filter, 2);
                if miss(pm[k as int]) {
                    assert(seq![pm[k as int]].filter(miss) =~= seq![pm[k as int]]);
                    assert(unresolved@.map_values(|p: String| p@) =~= now.filter(miss));
                } else {
                    assert(seq![pm[k as int]].filter(miss) =~= Seq::<Seq<char>>::empty());
                    assert(unresolved@.map_values(|p: String| p@) =~= now.filter(miss));
                }
            }
            k += 1;
        }
        proof {
            assert(pm.take(pm.len() as int) =~= pm);
        }
        (out, unresolved)
    }
}

} // verus!
