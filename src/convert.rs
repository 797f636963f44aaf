use vstd::prelude::*;
use vstd::std_specs::iter::IteratorSpec;

use crate::model::{Proxies, Proxy};
use crate::tree::{groups_view, items_view, GroupView, ItemView, ProxyGroup, ProxyItem, ProxyTree};

verus! {

broadcast use {vstd::string::axiom_spec_iter, vstd::string::next_postcondition};

/// Why a snapshot could not be converted.
#[derive(Clone, Copy, Debug, PartialEq, Eq, Structural)]
pub enum ConvertError {
    /// A group lists a member that has no record.
    MissingMember,
    /// A group's active member is not among its members.
    UnknownCurrent,
}

/// Lexicographic order of names, character by character.
pub open spec fn name_less(a: Seq<char>, b: Seq<char>) -> bool
    decreases a.len(),
{
    if b.len() == 0 {
        false
    } else if a.len() == 0 {
        true
    } else if a[0] != b[0] {
        (a[0] as u32) < (b[0] as u32)
    } else {
        name_less(a.drop_first(), b.drop_first())
    }
}

/// No two neighbours are out of order by name.
pub open spec fn sorted_by_name(s: Seq<GroupView>) -> bool {
    forall|i: int| 0 <= i < s.len() - 1 ==> !name_less(#[trigger] s[i + 1].name, s[i].name)
}

pub open spec fn is_first_entry(entries: Seq<(String, Proxy)>, name: Seq<char>, k: int) -> bool {
    &&& 0 <= k < entries.len()
    &&& entries[k].0@ == name
    &&& forall|q: int| 0 <= q < k ==> (#[trigger] entries[q]).0@ != name
}

/// The record of the first entry named `name`.
pub open spec fn lookup(entries: Seq<(String, Proxy)>, name: Seq<char>) -> Option<Proxy> {
    if exists|k: int| is_first_entry(entries, name, k) {
        Some(entries[choose|k: int| is_first_entry(entries, name, k)].1)
    } else {
        None
    }
}

/// The item made of a record: its latest latency sample is the first of its history.
pub open spec fn item_of(name: Seq<char>, p: Proxy) -> ItemView {
    ItemView {
        name,
        proxy_type: p.proxy_type,
        history: if p.history@.len() > 0 { Some(p.history@[0]) } else { None },
        udp: p.udp,
    }
}

pub open spec fn members_of(entries: Seq<(String, Proxy)>, all: Seq<String>) -> Option<Seq<ItemView>> {
    if forall|i: int| 0 <= i < all.len() ==> (#[trigger] lookup(entries, all[i]@)) is Some {
        Some(Seq::new(all.len(), |i: int| item_of(all[i]@, lookup(entries, all[i]@)->0)))
    } else {
        None
    }
}

pub open spec fn is_first_member(members: Seq<ItemView>, name: Seq<char>, j: int) -> bool {
    &&& 0 <= j < members.len()
    &&& members[j].name == name
    &&& forall|q: int| 0 <= q < j ==> (#[trigger] members[q]).name != name
}

/// The group made of a group record: the cursor starts on the active member, else on 0.
pub open spec fn group_of(
    entries: Seq<(String, Proxy)>,
    name: Seq<char>,
    p: Proxy,
    all: Seq<String>,
) -> Result<GroupView, ConvertError> {
    match members_of(entries, all) {
        None => Err(ConvertError::MissingMember),
        Some(ms) => match p.now {
            None => Ok(GroupView { name, proxy_type: p.proxy_type, members: ms, current: None, cursor: 0 }),
            Some(now) => if exists|j: int| is_first_member(ms, now@, j) {
                let j = choose|j: int| is_first_member(ms, now@, j);
                Ok(
                    GroupView {
                        name,
                        proxy_type: p.proxy_type,
                        members: ms,
                        current: Some(j as usize),
                        cursor: j as usize,
                    },
                )
            } else {
                Err(ConvertError::UnknownCurrent)
            },
        },
    }
}

/// The groups of the first `n` entries, in entry order, or the first error met.
pub open spec fn groups_upto(entries: Seq<(String, Proxy)>, n: int) -> Result<Seq<GroupView>, ConvertError>
    decreases n,
{
    if n <= 0 {
        Ok(Seq::empty())
    } else {
        match groups_upto(entries, n - 1) {
            Err(e) => Err(e),
            Ok(gs) => match entries[n - 1].1.all {
                None => Ok(gs),
                Some(all) => match group_of(entries, entries[n - 1].0@, entries[n - 1].1, all@) {
                    Err(e) => Err(e),
                    Ok(g) => Ok(gs.push(g)),
                },
            },
        }
    }
}

proof fn lemma_name_less_asym(a: Seq<char>, b: Seq<char>)
    requires
        name_less(a, b),
    ensures
        !name_less(b, a),
    decreases a.len(),
{
    if a.len() > 0 && b.len() > 0 && a[0] == b[0] {
        lemma_name_less_asym(a.drop_first(), b.drop_first());
    }
}

proof fn lemma_errors_stay(entries: Seq<(String, Proxy)>, i: int, n: int, e: ConvertError)
    requires
        0 <= i <= n,
        groups_upto(entries, i) == Err::<Seq<GroupView>, ConvertError>(e),
    ensures
        groups_upto(entries, n) == Err::<Seq<GroupView>, ConvertError>(e),
    decreases n - i,
{
    if i < n {
        lemma_errors_stay(entries, i, n - 1, e);
    }
}

proof fn lemma_insert_multiset(s: Seq<GroupView>, p: int, x: GroupView)
    requires
        0 <= p <= s.len(),
    ensures
        s.insert(p, x).to_multiset() =~= s.to_multiset().insert(x),
{
    broadcast use vstd::seq_lib::group_to_multiset_ensures;

    let t = s.insert(p, x);
    assert(t.remove(p) =~= s);
    assert(t.to_multiset().count(x) > 0) by {
        assert(t[p] == x);
        assert(t.contains(x));
    }
}

/// Whether `a` comes before `b` in name order.
pub fn name_lt(a: &String, b: &String) -> (r: bool)
    ensures
        r == name_less(a@, b@),
{
    let mut ia = a.as_str().chars();
    let mut ib = b.as_str().chars();
    loop
        invariant
            ia.obeys_prophetic_iter_laws(),
            ib.obeys_prophetic_iter_laws(),
            ia.decrease() is Some,
            name_less(ia.remaining(), ib.remaining()) == name_less(a@, b@),
        decreases ia.decrease()->0,
    {
        let x = ia.next();
        let y = ib.next();
        match (x, y) {
            (_, None) => {
                return false;
            },
            (None, Some(_)) => {
                return true;
            },
            (Some(c), Some(d)) => {
                if c != d {
                    return (c as u32) < (d as u32);
                }
            },
        }
    }
}
fn lookup_entry(entries: &Vec<(String, Proxy)>, name: &String) -> (r: Option<usize>)
    ensures
        match r {
            Some(k) => is_first_entry(entries@, name@, k as int) && lookup(entries@, name@) == Some(
                entries@[k as int].1,
            ),
            None => lookup(entries@, name@) is None,
        },
{
    let mut k: usize = 0;
    while k < entries.len()
        invariant
            0 <= k <= entries.len(),
            forall|q: int| 0 <= q < k ==> (#[trigger] entries@[q]).0@ != name@,
        decreases entries.len() - k,
    {
        if entries[k].0 == *name {
            proof {
                assert(is_first_entry(entries@, name@, k as int));
                let c = choose|c: int| is_first_entry(entries@, name@, c);
                if c < k {
                    assert(entries@[c].0@ != name@);
                }
                if (k as int) < c {
                    assert(entries@[k as int].0@ != name@);
                }
            }
            return Some(k);
        }
        k = k + 1;
    }
    None
}

impl ProxyItem {
    /// The item for the record `proxy` named `name`.
    pub fn from_record(name: &String, proxy: &Proxy) -> (r: ProxyItem)
        ensures
            r@ == item_of(name@, *proxy),
    {
        ProxyItem {
            name: name.clone(),
            proxy_type: proxy.proxy_type,
            history: if proxy.history.len() > 0 {
                Some(proxy.history[0])
            } else {
                None
            },
            udp: proxy.udp,
        }
    }
}

fn convert_group(
    entries: &Vec<(String, Proxy)>,
    name: &String,
    proxy: &Proxy,
    all: &Vec<String>,
) -> (r: Result<ProxyGroup, ConvertError>)
    ensures
        match r {
            Ok(g) => group_of(entries@, name@, *proxy, all@) == Ok::<GroupView, ConvertError>(g@)
                && g@.wf(),
            Err(e) => group_of(entries@, name@, *proxy, all@) == Err::<GroupView, ConvertError>(e),
        },
{
    let ghost target = Seq::new(all@.len(), |q: int| item_of(all@[q]@, lookup(entries@, all@[q]@)->0));
    let mut members: Vec<ProxyItem> = Vec::new();
    let mut i: usize = 0;
    while i < all.len()
        invariant
            0 <= i <= all.len(),
            target == Seq::new(all@.len(), |q: int| item_of(all@[q]@, lookup(entries@, all@[q]@)->0)),
            items_view(members@) == target.take(i as int),
            forall|q: int| 0 <= q < i ==> (#[trigger] lookup(entries@, all@[q]@)) is Some,
        decreases all.len() - i,
    {
        match lookup_entry(entries, &all[i]) {
            None => {
                assert(!(lookup(entries@, all@[i as int]@) is Some));
                return Err(ConvertError::MissingMember);
            },
            Some(k) => {
                let item = ProxyItem::from_record(&all[i], &entries[k].1);
                assert(item@ == target[i as int]);
                let ghost before = items_view(members@);
                members.push(item);
                assert(items_view(members@) =~= before.push(target[i as int]));
                assert(target.take(i as int + 1) =~= target.take(i as int).push(target[i as int]));
                i = i + 1;
            },
        }
    }
    assert(target.take(i as int) =~= target);
    let ghost ms = items_view(members@);
    assert(members_of(entries@, all@) == Some(ms));
    match &proxy.now {
        None => Ok(ProxyGroup {
            name: name.clone(),
            proxy_type: proxy.proxy_type,
            members,
            current: None,
            cursor: 0,
        }),
        Some(now) => {
            let mut j: usize = 0;
            while j < members.len()
                invariant
                    0 <= j <= members.len(),
                    ms == items_view(members@),
                    members_of(entries@, all@) == Some(ms),
                    proxy.now == Some(*now),
                    forall|q: int| 0 <= q < j ==> (#[trigger] ms[q]).name != now@,
                decreases members.len() - j,
            {
                if members[j].name == *now {
                    proof {
                        assert(ms[j as int].name == now@);
                        assert(is_first_member(ms, now@, j as int));
                        let c = choose|c: int| is_first_member(ms, now@, c);
                        if c < j {
                            assert(ms[c].name != now@);
                        }
                        if (j as int) < c {
                            assert(ms[j as int].name != now@);
                        }
                    }
                    return Ok(ProxyGroup {
                        name: name.clone(),
                        proxy_type: proxy.proxy_type,
                        members,
                        current: Some(j),
                        cursor: j,
                    });
                }
                j = j + 1;
            }
            Err(ConvertError::UnknownCurrent)
        },
    }
}

fn insert_sorted(groups: &mut Vec<ProxyGroup>, g: ProxyGroup)
    requires
        sorted_by_name(groups_view(old(groups)@)),
        forall|i: int| 0 <= i < old(groups)@.len() ==> (#[trigger] groups_view(old(groups)@)[i]).wf(),
        g@.wf(),
    ensures
        sorted_by_name(groups_view(final(groups)@)),
        forall|i: int| 0 <= i < final(groups)@.len() ==> (#[trigger] groups_view(final(groups)@)[i]).wf(),
        groups_view(final(groups)@).to_multiset() == groups_view(old(groups)@).to_multiset().insert(g@),
{
    let ghost s = groups_view(groups@);
    let mut p: usize = 0;
    while p < groups.len() && !name_lt(&g.name, &groups[p].name)
        invariant
            0 <= p <= groups.len(),
            s == groups_view(groups@),
            forall|k: int| 0 <= k < p ==> !name_less(g.name@, (#[trigger] s[k]).name),
        decreases groups.len() - p,
    {
        p = p + 1;
    }
    let ghost x = g@;
    groups.insert(p, g);
    proof {
        let t = s.insert(p as int, x);
        assert(groups_view(groups@) =~= t);
        lemma_insert_multiset(s, p as int, x);
        assert forall|i: int| 0 <= i < t.len() implies (#[trigger] t[i]).wf() by {
            if i < p {
                assert(t[i] == s[i]);
            } else if i > p {
                assert(t[i] == s[i - 1]);
            }
        }
        if (p as int) < s.len() {
            lemma_name_less_asym(x.name, s[p as int].name);
        }
        assert forall|i: int| 0 <= i < t.len() - 1 implies !name_less(#[trigger] t[i + 1].name, t[i].name) by {
            if i + 1 < p {
                assert(t[i] == s[i] && t[i + 1] == s[i + 1]);
                assert(!name_less(s[i + 1].name, s[i].name));
            } else if i + 1 == p {
                assert(t[i] == s[i] && t[i + 1] == x);
                assert(!name_less(x.name, s[i].name));
            } else if i == p {
                assert(t[i] == x && t[i + 1] == s[i]);
            } else {
                assert(t[i] == s[i - 1] && t[i + 1] == s[i]);
                assert(!name_less(s[(i - 1) + 1].name, s[i - 1].name));
            }
        }
    }
}

impl ProxyTree {
    /// Converts a snapshot: one group per entry that lists members, sorted by name, the
    /// tree collapsed with its cursor on the first group. Fails when a member has no
    /// record or an active member is not among the members, with the first such error in
    /// entry order.
    pub fn from_proxies(val: &Proxies) -> (r: Result<ProxyTree, ConvertError>)
        ensures
            match r {
                Ok(t) => groups_upto(val.entries@, val.entries@.len() as int) is Ok
                    && sorted_by_name(t@.groups)
                    && t@.groups.to_multiset() == groups_upto(
                    val.entries@,
                    val.entries@.len() as int,
                )->Ok_0.to_multiset()
                    && (forall|i: int| 0 <= i < t@.groups.len() ==> (#[trigger] t@.groups[i]).wf())
                    && t.cursor == 0 && !t.expanded,
                Err(e) => groups_upto(val.entries@, val.entries@.len() as int) == Err::<
                    Seq<GroupView>,
                    ConvertError,
                >(e),
            },
    {
        broadcast use vstd::seq_lib::group_to_multiset_ensures;

        let entries = &val.entries;
        let mut groups: Vec<ProxyGroup> = Vec::new();
        let ghost mut gs: Seq<GroupView> = Seq::empty();
        let mut i: usize = 0;
        assert(groups_view(groups@) =~= Seq::<GroupView>::empty());
        while i < entries.len()
            invariant
                0 <= i <= entries.len(),
                entries@ == val.entries@,
                groups_upto(entries@, i as int) == Ok::<Seq<GroupView>, ConvertError>(gs),
                sorted_by_name(groups_view(groups@)),
                forall|k: int| 0 <= k < groups@.len() ==> (#[trigger] groups_view(groups@)[k]).wf(),
                groups_view(groups@).to_multiset() == gs.to_multiset(),
            decreases entries.len() - i,
        {
            match &entries[i].1.all {
                None => {},
                Some(all) => match convert_group(entries, &entries[i].0, &entries[i].1, all) {
                    Err(e) => {
                        proof {
                            assert(groups_upto(entries@, i + 1) == Err::<Seq<GroupView>, ConvertError>(e));
                            lemma_errors_stay(entries@, i + 1, entries@.len() as int, e);
                        }
                        return Err(e);
                    },
                    Ok(g) => {
                        let ghost before = gs;
                        let ghost x = g@;
                        proof {
                            gs = gs.push(g@);
                            before.to_multiset_ensures();
                            assert(gs.to_multiset() =~= before.to_multiset().insert(x));
                        }
                        insert_sorted(&mut groups, g);
                    },
                },
            }
            i = i + 1;
        }
        Ok(ProxyTree { groups, expanded: false, cursor: 0 })
    }
}

} // verus!
