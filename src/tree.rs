use vstd::prelude::*;

use crate::model::{History, ProxyType};

verus! {

/// What a proxy item holds, as mathematical values.
pub struct ItemView {
    pub name: Seq<char>,
    pub proxy_type: ProxyType,
    pub history: Option<History>,
    pub udp: bool,
}

/// What a proxy group holds, as mathematical values.
pub struct GroupView {
    pub name: Seq<char>,
    pub proxy_type: ProxyType,
    pub members: Seq<ItemView>,
    pub current: Option<usize>,
    pub cursor: usize,
}

/// What a proxy tree holds, as mathematical values.
pub struct TreeView {
    pub groups: Seq<GroupView>,
    pub expanded: bool,
    pub cursor: usize,
}

/// One concrete proxy: its name, role, latest latency sample and UDP capability.
#[derive(Clone, Debug)]
pub struct ProxyItem {
    pub name: String,
    pub proxy_type: ProxyType,
    pub history: Option<History>,
    pub udp: bool,
}

impl View for ProxyItem {
    type V = ItemView;

    open spec fn view(&self) -> ItemView {
        ItemView {
            name: self.name@,
            proxy_type: self.proxy_type,
            history: self.history,
            udp: self.udp,
        }
    }
}

pub open spec fn items_view(items: Seq<ProxyItem>) -> Seq<ItemView> {
    items.map_values(|m: ProxyItem| m@)
}

impl ProxyItem {
    /// A copy of the item, field by field.
    pub fn duplicate(&self) -> (r: ProxyItem)
        ensures
            r@ == self@,
    {
        ProxyItem {
            name: self.name.clone(),
            proxy_type: self.proxy_type,
            history: self.history,
            udp: self.udp,
        }
    }

    /// Whether two items hold the same values.
    pub fn same_as(&self, other: &ProxyItem) -> (r: bool)
        ensures
            r == (self@ == other@),
    {
        let same_history = match (self.history, other.history) {
            (Some(a), Some(b)) => a.delay == b.delay,
            (None, None) => true,
            _ => false,
        };
        self.name == other.name && self.proxy_type == other.proxy_type && same_history
            && self.udp == other.udp
    }
}

/// A named collection of proxies, with the active member and the navigation cursor.
#[derive(Clone, Debug)]
pub struct ProxyGroup {
    pub name: String,
    pub proxy_type: ProxyType,
    pub members: Vec<ProxyItem>,
    pub current: Option<usize>,
    pub cursor: usize,
}

impl View for ProxyGroup {
    type V = GroupView;

    open spec fn view(&self) -> GroupView {
        GroupView {
            name: self.name@,
            proxy_type: self.proxy_type,
            members: items_view(self.members@),
            current: self.current,
            cursor: self.cursor,
        }
    }
}

impl GroupView {
    /// The active member, if any, is a member; the cursor indexes a member, or is 0 when
    /// there is none.
    pub open spec fn wf(self) -> bool {
        &&& (self.current matches Some(c) ==> c < self.members.len())
        &&& if self.members.len() == 0 {
            self.cursor == 0
        } else {
            self.cursor < self.members.len()
        }
    }
}

/// Group names are unique and every group is well formed.
pub open spec fn groups_wf(groups: Seq<GroupView>) -> bool {
    &&& unique_names(groups)
    &&& forall|i: int| 0 <= i < groups.len() ==> (#[trigger] groups[i]).wf()
}

impl TreeView {
    /// The groups are well formed and the cursor indexes one of them (0 when there is none).
    pub open spec fn wf(self) -> bool {
        &&& groups_wf(self.groups)
        &&& if self.groups.len() == 0 {
            self.cursor == 0
        } else {
            self.cursor < self.groups.len()
        }
    }
}

/// Two groups agree on everything that the backend reports: all but the cursor.
pub open spec fn same_content(a: GroupView, b: GroupView) -> bool {
    a.name == b.name && a.proxy_type == b.proxy_type && a.members == b.members && a.current
        == b.current
}

/// Two group lists agree, position by position, on everything but the cursors.
pub open spec fn same_contents(a: Seq<GroupView>, b: Seq<GroupView>) -> bool {
    a.len() == b.len() && forall|i: int| 0 <= i < a.len() ==> same_content(#[trigger] a[i], b[i])
}

/// `c` brought into the index range of a list of `len` members (0 when it is empty).
pub open spec fn clamp_index(c: usize, len: nat) -> usize {
    if (c as nat) < len {
        c
    } else if len == 0 {
        0
    } else {
        (len - 1) as usize
    }
}

pub open spec fn is_first_named(s: Seq<GroupView>, name: Seq<char>, j: int) -> bool {
    &&& 0 <= j < s.len()
    &&& s[j].name == name
    &&& forall|k: int| 0 <= k < j ==> (#[trigger] s[k]).name != name
}

/// No two groups share a name.
pub open spec fn unique_names(s: Seq<GroupView>) -> bool {
    forall|a: int, b: int|
        0 <= a < s.len() && 0 <= b < s.len() && a != b ==> (#[trigger] s[a]).name != (
        #[trigger] s[b]).name
}

pub open spec fn has_name(s: Seq<GroupView>, name: Seq<char>) -> bool {
    exists|k: int| 0 <= k < s.len() && (#[trigger] s[k]).name == name
}

/// A live group after a merge with `incoming`: taken over from the first incoming group of
/// the same name when that one differs in content, with the cursor kept and clamped.
pub open spec fn reconcile(g: GroupView, incoming: Seq<GroupView>) -> GroupView {
    if exists|j: int| is_first_named(incoming, g.name, j) {
        let n = incoming[choose|j: int| is_first_named(incoming, g.name, j)];
        if same_content(g, n) {
            g
        } else {
            GroupView { cursor: clamp_index(g.cursor, n.members.len()), ..n }
        }
    } else {
        g
    }
}

/// The groups of `live` after a merge with `incoming`: nothing changes when the contents
/// agree; otherwise each live group is reconciled in place (none is removed), and the
/// incoming groups whose name is new are appended in their order.
pub open spec fn merged(live: Seq<GroupView>, incoming: Seq<GroupView>) -> Seq<GroupView> {
    if same_contents(live, incoming) {
        live
    } else {
        live.map_values(|g: GroupView| reconcile(g, incoming)) + incoming.filter(
            |n: GroupView| !has_name(live, n.name),
        )
    }
}

impl ProxyGroup {
    /// A copy of the group, field by field.
    pub fn duplicate(&self) -> (r: ProxyGroup)
        ensures
            r@ == self@,
    {
        let members = copy_items(&self.members);
        ProxyGroup {
            name: self.name.clone(),
            proxy_type: self.proxy_type,
            members,
            current: self.current,
            cursor: self.cursor,
        }
    }

    /// Whether two groups agree on everything but the cursor.
    pub fn same_content_as(&self, other: &ProxyGroup) -> (r: bool)
        ensures
            r == same_content(self@, other@),
    {
        if !(self.name == other.name && self.proxy_type == other.proxy_type && self.current
            == other.current) {
            return false;
        }
        if self.members.len() != other.members.len() {
            assert(self@.members.len() != other@.members.len());
            return false;
        }
        let n = self.members.len();
        let mut i: usize = 0;
        while i < n
            invariant
                n == self.members.len(),
                n == other.members.len(),
                0 <= i <= n,
                forall|k: int| 0 <= k < i ==> self.members@[k]@ == other.members@[k]@,
            decreases n - i,
        {
            if !self.members[i].same_as(&other.members[i]) {
                assert(self@.members[i as int] != other@.members[i as int]);
                return false;
            }
            i = i + 1;
        }
        assert(self@.members =~= other@.members);
        true
    }
}

fn copy_items(items: &Vec<ProxyItem>) -> (r: Vec<ProxyItem>)
    ensures
        items_view(r@) == items_view(items@),
{
    let mut r: Vec<ProxyItem> = Vec::new();
    let mut i: usize = 0;
    while i < items.len()
        invariant
            0 <= i <= items.len(),
            r.len() == i,
            forall|k: int| 0 <= k < i ==> r@[k]@ == items@[k]@,
        decreases items.len() - i,
    {
        r.push(items[i].duplicate());
        i = i + 1;
    }
    assert(items_view(r@) =~= items_view(items@));
    r
}

/// The full ordered collection of groups, with the global cursor and the expanded mode.
#[derive(Clone, Debug)]
pub struct ProxyTree {
    pub groups: Vec<ProxyGroup>,
    pub expanded: bool,
    pub cursor: usize,
}

pub open spec fn groups_view(groups: Seq<ProxyGroup>) -> Seq<GroupView> {
    groups.map_values(|g: ProxyGroup| g@)
}

impl View for ProxyTree {
    type V = TreeView;

    open spec fn view(&self) -> TreeView {
        TreeView { groups: groups_view(self.groups@), expanded: self.expanded, cursor: self.cursor }
    }
}

impl Default for ProxyGroup {
    fn default() -> (r: ProxyGroup)
        ensures
            r@.name.len() == 0,
            r@.proxy_type == ProxyType::Selector,
            r@.members.len() == 0,
            r@.current is None,
            r@.cursor == 0,
    {
        ProxyGroup {
            name: String::new(),
            proxy_type: ProxyType::Selector,
            members: Vec::new(),
            current: None,
            cursor: 0,
        }
    }
}

/// The position of the first group of `groups` named `name`, if any.
fn find_named(groups: &Vec<ProxyGroup>, name: &String) -> (r: Option<usize>)
    ensures
        match r {
            Some(j) => is_first_named(groups_view(groups@), name@, j as int),
            None => !has_name(groups_view(groups@), name@),
        },
{
    let ghost gv = groups_view(groups@);
    let mut j: usize = 0;
    while j < groups.len()
        invariant
            0 <= j <= groups.len(),
            gv == groups_view(groups@),
            forall|k: int| 0 <= k < j ==> (#[trigger] gv[k]).name != name@,
        decreases groups.len() - j,
    {
        if groups[j].name == *name {
            return Some(j);
        }
        j = j + 1;
    }
    None
}

fn same_contents_exec(a: &Vec<ProxyGroup>, b: &Vec<ProxyGroup>) -> (r: bool)
    ensures
        r == same_contents(groups_view(a@), groups_view(b@)),
{
    if a.len() != b.len() {
        return false;
    }
    let mut i: usize = 0;
    while i < a.len()
        invariant
            a.len() == b.len(),
            0 <= i <= a.len(),
            forall|k: int| 0 <= k < i ==> same_content(a@[k]@, b@[k]@),
        decreases a.len() - i,
    {
        if !a[i].same_content_as(&b[i]) {
            assert(!same_content(groups_view(a@)[i as int], groups_view(b@)[i as int]));
            return false;
        }
        i = i + 1;
    }
    assert forall|k: int| 0 <= k < a.len() implies same_content(
        #[trigger] groups_view(a@)[k],
        groups_view(b@)[k],
    ) by {
        assert(same_content(a@[k]@, b@[k]@));
    }
    true
}

impl ProxyTree {
    /// Flips between the collapsed and the expanded mode.
    pub fn toggle(&mut self)
        ensures
            final(self)@ == (TreeView { expanded: !old(self)@.expanded, ..old(self)@ }),
    {
        self.expanded = !self.expanded;
    }

    /// Reconciles a freshly converted tree into this one, keeping the cursors: see `merged`.
    /// The global cursor and the mode are left as they are.
    pub fn merge(&mut self, other: ProxyTree)
        ensures
            final(self)@ == (TreeView {
                groups: merged(old(self)@.groups, other@.groups),
                ..old(self)@
            }),
            old(self)@.wf() && groups_wf(other@.groups) ==> final(self)@.wf(),
    {
        proof {
            if old(self)@.wf() && groups_wf(other@.groups) {
                crate::laws::lemma_merge_tree_wf(old(self)@, other@.groups);
            }
        }
        if same_contents_exec(&self.groups, &other.groups) {
            return;
        }
        let ghost live = old(self)@.groups;
        let ghost incoming = other@.groups;
        let incoming_groups = other.groups;
        let n = self.groups.len();
        let mut i: usize = 0;
        while i < n
            invariant
                n == self.groups.len(),
                0 <= i <= n,
                live.len() == n,
                incoming == groups_view(incoming_groups@),
                self.expanded == old(self).expanded,
                self.cursor == old(self).cursor,
                !same_contents(live, incoming),
                forall|k: int| 0 <= k < i ==> (#[trigger] self.groups@[k])@ == reconcile(live[k], incoming),
                forall|k: int| i <= k < n ==> (#[trigger] self.groups@[k])@ == live[k],
                live == groups_view(old(self).groups@),
            decreases n - i,
        {
            let found = find_named(&incoming_groups, &self.groups[i].name);
            match found {
                Some(j) => {
                    proof {
                        let c = choose|c: int| is_first_named(incoming, live[i as int].name, c);
                        if c < j {
                            assert(incoming[c].name != live[i as int].name);
                        }
                        if j < c {
                            assert(incoming[j as int].name != live[i as int].name);
                        }
                    }
                    if !self.groups[i].same_content_as(&incoming_groups[j]) {
                        let len = incoming_groups[j].members.len();
                        let old_cursor = self.groups[i].cursor;
                        let cursor = if old_cursor < len {
                            old_cursor
                        } else if len == 0 {
                            0
                        } else {
                            len - 1
                        };
                        let mut g = incoming_groups[j].duplicate();
                        g.cursor = cursor;
                        self.groups.set(i, g);
                    }
                },
                None => {},
            }
            i = i + 1;
        }
        let ghost mid = groups_view(self.groups@);
        assert(mid =~= live.map_values(|g: GroupView| reconcile(g, incoming)));
        let ghost pred = |g: GroupView| !has_name(live, g.name);
        let m = incoming_groups.len();
        let mut j: usize = 0;
        while j < m
            invariant
                m == incoming_groups.len(),
                0 <= j <= m,
                n <= self.groups.len(),
                incoming == groups_view(incoming_groups@),
                self.expanded == old(self).expanded,
                self.cursor == old(self).cursor,
                forall|k: int| 0 <= k < n ==> (#[trigger] self.groups@[k])@ == mid[k],
                forall|k: int| 0 <= k < n ==> (#[trigger] mid[k]).name == live[k].name,
                groups_view(self.groups@).subrange(n as int, self.groups.len() as int)
                    == incoming.take(j as int).filter(pred),
                live.len() == n,
                mid.len() == n,
                pred == (|g: GroupView| !has_name(live, g.name)),
            decreases m - j,
        {
            let ghost before = groups_view(self.groups@);
            proof {
                assert(incoming.take(j as int + 1) =~= incoming.take(j as int).push(incoming[j as int]));
                incoming.take(j as int).lemma_filter_push(incoming[j as int], pred);
            }
            let seen = find_named_prefix(&self.groups, n, &incoming_groups[j].name);
            proof {
                let name = incoming[j as int].name;
                if seen {
                    let k = choose|k: int| 0 <= k < n && (#[trigger] groups_view(self.groups@)[k]).name == name;
                    assert(groups_view(self.groups@)[k] == self.groups@[k]@);
                    assert(live[k].name == name);
                    assert(has_name(live, name));
                } else {
                    assert forall|k: int| 0 <= k < live.len() implies (#[trigger] live[k]).name != name by {
                        assert(groups_view(self.groups@)[k] == self.groups@[k]@);
                        assert(self.groups@[k]@ == mid[k]);
                        assert(mid[k].name == live[k].name);
                    }
                }
                assert(pred(incoming[j as int]) == !seen);
            }
            if !seen {
                let g = incoming_groups[j].duplicate();
                self.groups.push(g);
                assert(groups_view(self.groups@).subrange(n as int, self.groups.len() as int)
                    =~= before.subrange(n as int, before.len() as int).push(g@));
            } else {
                assert(groups_view(self.groups@).subrange(n as int, self.groups.len() as int)
                    =~= before.subrange(n as int, before.len() as int));
            }
            j = j + 1;
        }
        assert(incoming.take(m as int) =~= incoming);
        assert(groups_view(self.groups@) =~= mid + incoming.filter(pred));
    }
}

/// Whether one of the first `n` groups is named `name`.
fn find_named_prefix(groups: &Vec<ProxyGroup>, n: usize, name: &String) -> (r: bool)
    requires
        n <= groups.len(),
    ensures
        r == exists|k: int| 0 <= k < n && (#[trigger] groups_view(groups@)[k]).name == name@,
{
    let mut k: usize = 0;
    while k < n
        invariant
            n <= groups.len(),
            0 <= k <= n,
            forall|q: int| 0 <= q < k ==> (#[trigger] groups_view(groups@)[q]).name != name@,
        decreases n - k,
    {
        if groups[k].name == *name {
            assert(groups_view(groups@)[k as int].name == name@);
            return true;
        }
        k = k + 1;
    }
    false
}


} // verus!
