//! The in-memory account store: the authoritative group/account tree with
//! value semantics, explicit identifiers, and exact contracts for every
//! mutation.
//!
//! Policy on deleting a group that still holds entries: the delete is refused
//! with [`StoreError::GroupNotEmpty`]; it never cascades. Deleting an empty
//! group always succeeds.

use vstd::prelude::*;

use crate::codec;
use crate::model::{Account, AccountGroup, EntryData, GroupData, StoreError, account_data,
    backup_wf, group_data, group_data_wf, entry_data_wf, tree_data, opt_view};
use crate::codec::{spec_parse_backup, spec_ser_backup};

verus! {

/// The whole store: groups in display order, plus the next free identifiers.
/// Identifiers are assigned on first insert and stable thereafter.
pub struct Store {
    pub groups: Vec<AccountGroup>,
    pub next_group_id: u32,
    pub next_account_id: u32,
}

pub open spec fn account_ok(a: Account, gid: u32, na: u32) -> bool {
    &&& a.group_id == gid
    &&& a.id < na
    &&& a.secret@.len() > 0
}

pub open spec fn group_ok(g: AccountGroup, ng: u32, na: u32) -> bool {
    &&& g.name@.len() > 0
    &&& g.id < ng
    &&& forall|k: int| 0 <= k < g.entries@.len() ==> account_ok(#[trigger] g.entries@[k], g.id, na)
}

/// Well-formedness: non-empty names and secrets, identifiers below the next
/// free ones and unique across the whole store, every entry tied to its group.
pub open spec fn store_wf(s: Store) -> bool {
    &&& forall|i: int| 0 <= i < s.groups@.len() ==> group_ok(
        #[trigger] s.groups@[i],
        s.next_group_id,
        s.next_account_id,
    )
    &&& forall|i: int, j: int|
        0 <= i < s.groups@.len() && 0 <= j < s.groups@.len() && i != j ==> (
        #[trigger] s.groups@[i]).id != (#[trigger] s.groups@[j]).id
    &&& forall|i: int, k: int, j: int, l: int|
        0 <= i < s.groups@.len() && 0 <= k < s.groups@[i].entries@.len() && 0 <= j
            < s.groups@.len() && 0 <= l < s.groups@[j].entries@.len() && (i != j || k != l) ==> (
        #[trigger] s.groups@[i].entries@[k]).id != (#[trigger] s.groups@[j].entries@[l]).id
    &&& s.next_group_id >= 1
    &&& s.next_account_id >= 1
}

pub open spec fn has_group(gs: Seq<AccountGroup>, id: u32) -> bool {
    exists|i: int| 0 <= i < gs.len() && (#[trigger] gs[i]).id == id
}

pub open spec fn group_index(gs: Seq<AccountGroup>, id: u32) -> int {
    choose|i: int| 0 <= i < gs.len() && (#[trigger] gs[i]).id == id
}

pub open spec fn has_account(gs: Seq<AccountGroup>, id: u32) -> bool {
    exists|i: int, k: int|
        0 <= i < gs.len() && 0 <= k < gs[i].entries@.len() && (
        #[trigger] gs[i].entries@[k]).id == id
}

pub open spec fn account_pos(gs: Seq<AccountGroup>, id: u32) -> (int, int) {
    choose|i: int, k: int|
        0 <= i < gs.len() && 0 <= k < gs[i].entries@.len() && (
        #[trigger] gs[i].entries@[k]).id == id
}

/// A well-formed store always serializes to a backup that is itself
/// well-formed (non-empty names and secrets).
pub proof fn lemma_store_backup_wf(s: Store)
    requires
        store_wf(s),
    ensures
        backup_wf(tree_data(s.groups@)),
{
    let td = tree_data(s.groups@);
    assert forall|i: int| 0 <= i < td.len() implies group_data_wf(#[trigger] td[i]) by {
        assert(group_ok(s.groups@[i], s.next_group_id, s.next_account_id));
        let gd = td[i];
        assert(gd == group_data(s.groups@[i]));
        assert forall|k: int| 0 <= k < gd.entries.len() implies entry_data_wf(
            #[trigger] gd.entries[k],
        ) by {
            assert(account_ok(s.groups@[i].entries@[k], s.groups@[i].id, s.next_account_id));
            assert(gd.entries[k] == account_data(s.groups@[i].entries@[k]));
        }
    }
}

impl Store {
    /// A fresh, empty store.
    pub fn new() -> (s: Store)
        ensures
            s.groups@.len() == 0,
            s.next_group_id == 1,
            s.next_account_id == 1,
            store_wf(s),
    {
        Store { groups: Vec::new(), next_group_id: 1, next_account_id: 1 }
    }

    /// Position of the group with the given identifier, if any.
    fn find_group_index(&self, id: u32) -> (r: Option<usize>)
        ensures
            match r {
                Option::Some(i) => i < self.groups@.len() && self.groups@[i as int].id == id,
                Option::None => !has_group(self.groups@, id),
            },
    {
        let mut i: usize = 0;
        while i < self.groups.len()
            invariant
                i <= self.groups@.len(),
                forall|j: int| 0 <= j < i ==> (#[trigger] self.groups@[j]).id != id,
            decreases self.groups@.len() - i,
        {
            if self.groups[i].id == id {
                return Option::Some(i);
            }
            i = i + 1;
        }
        Option::None
    }

    /// Entry count of the group with the given identifier, if it exists.
    pub fn find_group_entry_count(&self, id: u32) -> (r: Option<usize>)
        requires
            store_wf(*self),
        ensures
            match r {
                Option::Some(c) => has_group(self.groups@, id) && c == self.groups@[group_index(
                    self.groups@,
                    id,
                )].entries@.len(),
                Option::None => !has_group(self.groups@, id),
            },
    {
        match self.find_group_index(id) {
            Option::None => Option::None,
            Option::Some(i) => {
                proof {
                    assert(has_group(self.groups@, id));
                    let gi = group_index(self.groups@, id);
                    assert(0 <= gi < self.groups@.len() && self.groups@[gi].id == id);
                    assert(gi == i as int);
                }
                Option::Some(self.groups[i].entries.len())
            },
        }
    }

    /// Whether any account in the store carries the given identifier.
    pub fn has_account_with_id(&self, id: u32) -> (r: bool)
        ensures
            r == has_account(self.groups@, id),
    {
        match self.find_account_index(id) {
            Option::Some(_) => true,
            Option::None => false,
        }
    }

    /// Appends a group that keeps a caller-supplied identifier (used when
    /// reloading persisted rows, whose identifiers must stay stable); the
    /// next-free counter is raised above it.
    pub(crate) fn add_group_with_id(
        &mut self,
        id: u32,
        name: String,
        icon: Option<String>,
        url: Option<String>,
    )
        requires
            store_wf(*old(self)),
            name@.len() > 0,
            !has_group(old(self).groups@, id),
            id < u32::MAX,
        ensures
            store_wf(*final(self)),
            final(self).groups@.len() == old(self).groups@.len() + 1,
            final(self).groups@.subrange(0, old(self).groups@.len() as int) == old(self).groups@,
            final(self).groups@.last().id == id,
            final(self).groups@.last().name == name,
            final(self).groups@.last().icon == icon,
            final(self).groups@.last().url == url,
            final(self).groups@.last().entries@.len() == 0,
            final(self).next_account_id == old(self).next_account_id,
            final(self).next_group_id == (if id + 1 > old(self).next_group_id {
                (id + 1) as u32
            } else {
                old(self).next_group_id
            }),
    {
        let g = AccountGroup { id, name, icon, url, entries: Vec::new() };
        self.groups.push(g);
        if id >= self.next_group_id {
            self.next_group_id = id + 1;
        }
        proof {
            let olds = old(self).groups@;
            let news = self.groups@;
            assert(news.subrange(0, olds.len() as int) =~= olds);
            assert forall|i: int| 0 <= i < news.len() implies group_ok(
                #[trigger] news[i],
                self.next_group_id,
                self.next_account_id,
            ) by {
                if i < olds.len() {
                    assert(news[i] == olds[i]);
                    assert(group_ok(olds[i], old(self).next_group_id, old(self).next_account_id));
                }
            }
            assert forall|i: int, j: int|
                0 <= i < news.len() && 0 <= j < news.len() && i != j implies (
            #[trigger] news[i]).id != (#[trigger] news[j]).id by {
                if i < olds.len() && j < olds.len() {
                    assert(olds[i].id != olds[j].id);
                } else if i < olds.len() {
                    assert(olds[i].id != id) by {
                        if olds[i].id == id {
                            assert(has_group(olds, id));
                        }
                    }
                } else if j < olds.len() {
                    assert(olds[j].id != id) by {
                        if olds[j].id == id {
                            assert(has_group(olds, id));
                        }
                    }
                }
            }
            assert forall|i: int, k: int, j: int, l: int|
                0 <= i < news.len() && 0 <= k < news[i].entries@.len() && 0 <= j < news.len() && 0
                    <= l < news[j].entries@.len() && (i != j || k != l) implies (
            #[trigger] news[i].entries@[k]).id != (#[trigger] news[j].entries@[l]).id by {
                assert(i < olds.len() && j < olds.len());
                assert(news[i] == olds[i] && news[j] == olds[j]);
            }
        }
    }

    /// Appends an account that keeps a caller-supplied identifier (used when
    /// reloading persisted rows); the next-free counter is raised above it.
    pub(crate) fn add_account_with_id(&mut self, group_id: u32, id: u32, label: String,
        secret: String)
        requires
            store_wf(*old(self)),
            has_group(old(self).groups@, group_id),
            secret@.len() > 0,
            !has_account(old(self).groups@, id),
            id < u32::MAX,
        ensures
            store_wf(*final(self)),
            final(self).next_group_id == old(self).next_group_id,
            final(self).next_account_id == (if id + 1 > old(self).next_account_id {
                (id + 1) as u32
            } else {
                old(self).next_account_id
            }),
            final(self).groups@.len() == old(self).groups@.len(),
            forall|j: int|
                0 <= j < old(self).groups@.len() && j != group_index(
                    old(self).groups@,
                    group_id,
                ) ==> final(self).groups@[j] == old(self).groups@[j],
            final(self).groups@[group_index(old(self).groups@, group_id)].id == group_id,
            final(self).groups@[group_index(old(self).groups@, group_id)].name == old(
                self,
            ).groups@[group_index(old(self).groups@, group_id)].name,
            final(self).groups@[group_index(old(self).groups@, group_id)].icon == old(
                self,
            ).groups@[group_index(old(self).groups@, group_id)].icon,
            final(self).groups@[group_index(old(self).groups@, group_id)].url == old(
                self,
            ).groups@[group_index(old(self).groups@, group_id)].url,
            final(self).groups@[group_index(old(self).groups@, group_id)].entries@ == old(
                self,
            ).groups@[group_index(old(self).groups@, group_id)].entries@.push(
                (Account { id: id, group_id: group_id, label: label, secret: secret }),
            ),
    {
        let found = self.find_group_index(group_id);
        let i = match found {
            Option::Some(i) => i,
            Option::None => {
                proof {
                    assert(false);
                }
                0
            },
        };
        proof {
            let gi = group_index(self.groups@, group_id);
            assert(0 <= gi < self.groups@.len() && self.groups@[gi].id == group_id);
            assert(gi == i as int);
        }
        let ghost olds = self.groups@;
        let ghost na = old(self).next_account_id;
        let mut g = self.groups.remove(i);
        let a = Account { id, group_id, label, secret };
        g.entries.push(a);
        self.groups.insert(i, g);
        if id >= self.next_account_id {
            self.next_account_id = id + 1;
        }
        proof {
            let news = self.groups@;
            assert(news =~= olds.update(i as int, news[i as int]));
            assert(news[i as int].entries@ =~= olds[i as int].entries@.push(a));
            assert forall|j: int| 0 <= j < news.len() implies group_ok(
                #[trigger] news[j],
                self.next_group_id,
                self.next_account_id,
            ) by {
                assert(group_ok(olds[j], self.next_group_id, na));
                if j != i as int {
                    assert(news[j] == olds[j]);
                    assert forall|k: int| 0 <= k < news[j].entries@.len() implies account_ok(
                        #[trigger] news[j].entries@[k],
                        news[j].id,
                        self.next_account_id,
                    ) by {
                        assert(account_ok(olds[j].entries@[k], olds[j].id, na));
                    }
                } else {
                    assert forall|k: int| 0 <= k < news[j].entries@.len() implies account_ok(
                        #[trigger] news[j].entries@[k],
                        news[j].id,
                        self.next_account_id,
                    ) by {
                        if k < olds[j].entries@.len() {
                            assert(account_ok(olds[j].entries@[k], olds[j].id, na));
                        } else {
                            assert(news[j].entries@[k] == a);
                        }
                    }
                }
            }
            assert forall|x: int, y: int|
                0 <= x < news.len() && 0 <= y < news.len() && x != y implies (
            #[trigger] news[x]).id != (#[trigger] news[y]).id by {
                assert(news[x].id == olds[x].id);
                assert(news[y].id == olds[y].id);
            }
            assert forall|x: int, k: int, y: int, l: int|
                0 <= x < news.len() && 0 <= k < news[x].entries@.len() && 0 <= y < news.len() && 0
                    <= l < news[y].entries@.len() && (x != y || k != l) implies (
            #[trigger] news[x].entries@[k]).id != (#[trigger] news[y].entries@[l]).id by {
                let oldx = x != i as int || k < olds[i as int].entries@.len();
                let oldy = y != i as int || l < olds[i as int].entries@.len();
                if oldx && oldy {
                    assert(news[x].entries@[k] == olds[x].entries@[k]);
                    assert(news[y].entries@[l] == olds[y].entries@[l]);
                    assert(olds[x].entries@[k].id != olds[y].entries@[l].id);
                } else if oldx {
                    assert(news[y].entries@[l] == a);
                    assert(news[x].entries@[k] == olds[x].entries@[k]);
                    assert(olds[x].entries@[k].id != id) by {
                        if olds[x].entries@[k].id == id {
                            assert(has_account(olds, id));
                        }
                    }
                } else if oldy {
                    assert(news[x].entries@[k] == a);
                    assert(news[y].entries@[l] == olds[y].entries@[l]);
                    assert(olds[y].entries@[l].id != id) by {
                        if olds[y].entries@[l].id == id {
                            assert(has_account(olds, id));
                        }
                    }
                }
            }
        }
    }

    /// Adds a new group with a fresh identifier at the end of the display
    /// order. Fails exactly on an empty name or exhausted identifiers.
    pub fn add_group(&mut self, name: String, icon: Option<String>, url: Option<String>) -> (r:
        Result<u32, StoreError>)
        requires
            store_wf(*old(self)),
        ensures
            store_wf(*final(self)),
            r is Ok <==> (name@.len() > 0 && old(self).next_group_id < u32::MAX),
            r matches Err(e) ==> {
                &&& *final(self) == *old(self)
                &&& (e == StoreError::EmptyName <==> name@.len() == 0)
                &&& (e == StoreError::IdsExhausted <==> name@.len() > 0 && old(
                    self,
                ).next_group_id == u32::MAX)
            },
            r matches Ok(id) ==> {
                &&& id == old(self).next_group_id
                &&& final(self).next_group_id == old(self).next_group_id + 1
                &&& final(self).next_account_id == old(self).next_account_id
                &&& final(self).groups@.len() == old(self).groups@.len() + 1
                &&& final(self).groups@.subrange(0, old(self).groups@.len() as int) == old(
                    self,
                ).groups@
                &&& final(self).groups@.last().id == id
                &&& final(self).groups@.last().name == name
                &&& final(self).groups@.last().icon == icon
                &&& final(self).groups@.last().url == url
                &&& final(self).groups@.last().entries@.len() == 0
            },
    {
        if name.as_str().is_empty() {
            return Result::Err(StoreError::EmptyName);
        }
        if self.next_group_id == u32::MAX {
            return Result::Err(StoreError::IdsExhausted);
        }
        let id = self.next_group_id;
        let g = AccountGroup { id, name, icon, url, entries: Vec::new() };
        self.groups.push(g);
        self.next_group_id = id + 1;
        proof {
            let olds = old(self).groups@;
            let news = self.groups@;
            assert(news.subrange(0, olds.len() as int) =~= olds);
            assert forall|i: int| 0 <= i < news.len() implies group_ok(
                #[trigger] news[i],
                self.next_group_id,
                self.next_account_id,
            ) by {
                if i < olds.len() {
                    assert(news[i] == olds[i]);
                    assert(group_ok(olds[i], old(self).next_group_id, old(self).next_account_id));
                }
            }
            assert forall|i: int, j: int|
                0 <= i < news.len() && 0 <= j < news.len() && i != j implies (
            #[trigger] news[i]).id != (#[trigger] news[j]).id by {
                if i < olds.len() && j < olds.len() {
                    assert(olds[i].id != olds[j].id);
                } else if i < olds.len() {
                    assert(group_ok(olds[i], old(self).next_group_id, old(self).next_account_id));
                } else if j < olds.len() {
                    assert(group_ok(olds[j], old(self).next_group_id, old(self).next_account_id));
                }
            }
            assert forall|i: int, k: int, j: int, l: int|
                0 <= i < news.len() && 0 <= k < news[i].entries@.len() && 0 <= j < news.len() && 0
                    <= l < news[j].entries@.len() && (i != j || k != l) implies (
            #[trigger] news[i].entries@[k]).id != (#[trigger] news[j].entries@[l]).id by {
                assert(i < olds.len() && j < olds.len());
                assert(news[i] == olds[i] && news[j] == olds[j]);
            }
        }
        Result::Ok(id)
    }

    /// Deletes the group with the given identifier. An empty group always
    /// deletes; a group that still holds entries is refused, never cascaded.
    pub fn delete_group(&mut self, id: u32) -> (r: Result<(), StoreError>)
        requires
            store_wf(*old(self)),
        ensures
            store_wf(*final(self)),
            r is Ok <==> (has_group(old(self).groups@, id) && old(self).groups@[group_index(
                old(self).groups@,
                id,
            )].entries@.len() == 0),
            r matches Err(e) ==> {
                &&& *final(self) == *old(self)
                &&& (e == StoreError::GroupNotFound <==> !has_group(old(self).groups@, id))
                &&& (e == StoreError::GroupNotEmpty <==> has_group(old(self).groups@, id)
                    && old(self).groups@[group_index(old(self).groups@, id)].entries@.len() > 0)
            },
            r is Ok ==> {
                &&& final(self).groups@ == old(self).groups@.remove(group_index(
                    old(self).groups@,
                    id,
                ))
                &&& final(self).next_group_id == old(self).next_group_id
                &&& final(self).next_account_id == old(self).next_account_id
            },
    {
        let found = self.find_group_index(id);
        match found {
            Option::None => Result::Err(StoreError::GroupNotFound),
            Option::Some(i) => {
                proof {
                    assert(has_group(self.groups@, id));
                    let gi = group_index(self.groups@, id);
                    assert(0 <= gi < self.groups@.len() && self.groups@[gi].id == id);
                    assert(gi == i as int);
                }
                if self.groups[i].entries.len() > 0 {
                    return Result::Err(StoreError::GroupNotEmpty);
                }
                let ghost olds = self.groups@;
                self.groups.remove(i);
                proof {
                    let news = self.groups@;
                    olds.remove_ensures(i as int);
                    assert forall|j: int| 0 <= j < news.len() implies group_ok(
                        #[trigger] news[j],
                        self.next_group_id,
                        self.next_account_id,
                    ) by {
                        if j < i as int {
                            assert(news[j] == olds[j]);
                        } else {
                            assert(news[j] == olds[j + 1]);
                        }
                    }
                    assert forall|a: int, b: int|
                        0 <= a < news.len() && 0 <= b < news.len() && a != b implies (
                    #[trigger] news[a]).id != (#[trigger] news[b]).id by {
                        let a0 = if a < i as int { a } else { a + 1 };
                        let b0 = if b < i as int { b } else { b + 1 };
                        assert(news[a] == olds[a0]);
                        assert(news[b] == olds[b0]);
                        assert(olds[a0].id != olds[b0].id);
                    }
                    assert forall|a: int, k: int, b: int, l: int|
                        0 <= a < news.len() && 0 <= k < news[a].entries@.len() && 0 <= b
                            < news.len() && 0 <= l < news[b].entries@.len() && (a != b || k != l)
                        implies (#[trigger] news[a].entries@[k]).id != (
                    #[trigger] news[b].entries@[l]).id by {
                        let a0 = if a < i as int { a } else { a + 1 };
                        let b0 = if b < i as int { b } else { b + 1 };
                        assert(news[a] == olds[a0]);
                        assert(news[b] == olds[b0]);
                        assert(olds[a0].entries@[k].id != olds[b0].entries@[l].id);
                    }
                }
                Result::Ok(())
            },
        }
    }

    /// Replaces name, icon and url of the group with the given identifier,
    /// keeping its entries. Fails exactly on a missing group or empty name.
    pub fn update_group(&mut self, id: u32, name: String, icon: Option<String>, url: Option<
        String,
    >) -> (r: Result<(), StoreError>)
        requires
            store_wf(*old(self)),
        ensures
            store_wf(*final(self)),
            r is Ok <==> (has_group(old(self).groups@, id) && name@.len() > 0),
            r matches Err(e) ==> {
                &&& *final(self) == *old(self)
                &&& (e == StoreError::GroupNotFound <==> !has_group(old(self).groups@, id))
                &&& (e == StoreError::EmptyName <==> has_group(old(self).groups@, id)
                    && name@.len() == 0)
            },
            r is Ok ==> {
                &&& final(self).next_group_id == old(self).next_group_id
                &&& final(self).next_account_id == old(self).next_account_id
                &&& final(self).groups@.len() == old(self).groups@.len()
                &&& forall|j: int|
                    0 <= j < old(self).groups@.len() && j != group_index(old(self).groups@, id)
                        ==> final(self).groups@[j] == old(self).groups@[j]
                &&& final(self).groups@[group_index(old(self).groups@, id)].id == id
                &&& final(self).groups@[group_index(old(self).groups@, id)].name == name
                &&& final(self).groups@[group_index(old(self).groups@, id)].icon == icon
                &&& final(self).groups@[group_index(old(self).groups@, id)].url == url
                &&& final(self).groups@[group_index(old(self).groups@, id)].entries == old(
                    self,
                ).groups@[group_index(old(self).groups@, id)].entries
            },
    {
        let found = self.find_group_index(id);
        match found {
            Option::None => Result::Err(StoreError::GroupNotFound),
            Option::Some(i) => {
                proof {
                    assert(has_group(self.groups@, id));
                    let gi = group_index(self.groups@, id);
                    assert(0 <= gi < self.groups@.len() && self.groups@[gi].id == id);
                    assert(gi == i as int);
                }
                if name.as_str().is_empty() {
                    return Result::Err(StoreError::EmptyName);
                }
                let ghost olds = self.groups@;
                let mut g = self.groups.remove(i);
                g.name = name;
                g.icon = icon;
                g.url = url;
                self.groups.insert(i, g);
                proof {
                    let news = self.groups@;
                    assert(news =~= olds.update(i as int, news[i as int]));
                    assert forall|j: int| 0 <= j < news.len() implies group_ok(
                        #[trigger] news[j],
                        self.next_group_id,
                        self.next_account_id,
                    ) by {
                        if j != i as int {
                            assert(news[j] == olds[j]);
                        } else {
                            assert(news[j].entries == olds[j].entries);
                            assert(news[j].id == olds[j].id);
                            assert(group_ok(olds[j], self.next_group_id, self.next_account_id));
                        }
                    }
                    assert forall|a: int, b: int|
                        0 <= a < news.len() && 0 <= b < news.len() && a != b implies (
                    #[trigger] news[a]).id != (#[trigger] news[b]).id by {
                        assert(news[a].id == olds[a].id);
                        assert(news[b].id == olds[b].id);
                    }
                    assert forall|a: int, k: int, b: int, l: int|
                        0 <= a < news.len() && 0 <= k < news[a].entries@.len() && 0 <= b
                            < news.len() && 0 <= l < news[b].entries@.len() && (a != b || k != l)
                        implies (#[trigger] news[a].entries@[k]).id != (
                    #[trigger] news[b].entries@[l]).id by {
                        assert(news[a].entries == olds[a].entries);
                        assert(news[b].entries == olds[b].entries);
                        assert(olds[a].entries@[k].id != olds[b].entries@[l].id);
                    }
                }
                Result::Ok(())
            },
        }
    }
    /// Position of the account with the given identifier, if any.
    fn find_account_index(&self, id: u32) -> (r: Option<(usize, usize)>)
        ensures
            match r {
                Option::Some(p) => p.0 < self.groups@.len() && p.1 < self.groups@[
                    p.0 as int
                ].entries@.len() && self.groups@[p.0 as int].entries@[p.1 as int].id == id,
                Option::None => !has_account(self.groups@, id),
            },
    {
        let mut i: usize = 0;
        while i < self.groups.len()
            invariant
                i <= self.groups@.len(),
                forall|j: int, l: int|
                    0 <= j < i && 0 <= l < self.groups@[j].entries@.len() ==> (
                    #[trigger] self.groups@[j].entries@[l]).id != id,
            decreases self.groups@.len() - i,
        {
            let n = self.groups[i].entries.len();
            let mut k: usize = 0;
            while k < n
                invariant
                    i < self.groups@.len(),
                    n == self.groups@[i as int].entries@.len(),
                    k <= n,
                    forall|j: int, l: int|
                        0 <= j < i && 0 <= l < self.groups@[j].entries@.len() ==> (
                        #[trigger] self.groups@[j].entries@[l]).id != id,
                    forall|l: int|
                        0 <= l < k ==> (#[trigger] self.groups@[i as int].entries@[l]).id != id,
                decreases n - k,
            {
                if self.groups[i].entries[k].id == id {
                    return Option::Some((i, k));
                }
                k = k + 1;
            }
            i = i + 1;
        }
        Option::None
    }

    /// Appends a new account with a fresh identifier to the given group.
    /// Fails exactly on a missing group, an empty secret, or exhausted
    /// identifiers.
    pub fn add_account(&mut self, group_id: u32, label: String, secret: String) -> (r: Result<
        u32,
        StoreError,
    >)
        requires
            store_wf(*old(self)),
        ensures
            store_wf(*final(self)),
            r is Ok <==> (has_group(old(self).groups@, group_id) && secret@.len() > 0 && old(
                self,
            ).next_account_id < u32::MAX),
            r matches Err(e) ==> {
                &&& *final(self) == *old(self)
                &&& (e == StoreError::GroupNotFound <==> !has_group(old(self).groups@, group_id))
                &&& (e == StoreError::EmptySecret <==> has_group(old(self).groups@, group_id)
                    && secret@.len() == 0)
                &&& (e == StoreError::IdsExhausted <==> has_group(old(self).groups@, group_id)
                    && secret@.len() > 0 && old(self).next_account_id == u32::MAX)
            },
            r matches Ok(id) ==> {
                &&& id == old(self).next_account_id
                &&& final(self).next_account_id == old(self).next_account_id + 1
                &&& final(self).next_group_id == old(self).next_group_id
                &&& final(self).groups@.len() == old(self).groups@.len()
                &&& forall|j: int|
                    0 <= j < old(self).groups@.len() && j != group_index(
                        old(self).groups@,
                        group_id,
                    ) ==> final(self).groups@[j] == old(self).groups@[j]
                &&& final(self).groups@[group_index(old(self).groups@, group_id)].id == group_id
                &&& final(self).groups@[group_index(old(self).groups@, group_id)].name == old(
                    self,
                ).groups@[group_index(old(self).groups@, group_id)].name
                &&& final(self).groups@[group_index(old(self).groups@, group_id)].icon == old(
                    self,
                ).groups@[group_index(old(self).groups@, group_id)].icon
                &&& final(self).groups@[group_index(old(self).groups@, group_id)].url == old(
                    self,
                ).groups@[group_index(old(self).groups@, group_id)].url
                &&& final(self).groups@[group_index(old(self).groups@, group_id)].entries@ == old(
                    self,
                ).groups@[group_index(old(self).groups@, group_id)].entries@.push(
                    (Account { id: id, group_id: group_id, label: label, secret: secret }),
                )
            },
    {
        let found = self.find_group_index(group_id);
        match found {
            Option::None => Result::Err(StoreError::GroupNotFound),
            Option::Some(i) => {
                proof {
                    assert(has_group(self.groups@, group_id));
                    let gi = group_index(self.groups@, group_id);
                    assert(0 <= gi < self.groups@.len() && self.groups@[gi].id == group_id);
                    assert(gi == i as int);
                }
                if secret.as_str().is_empty() {
                    return Result::Err(StoreError::EmptySecret);
                }
                if self.next_account_id == u32::MAX {
                    return Result::Err(StoreError::IdsExhausted);
                }
                let id = self.next_account_id;
                let ghost olds = self.groups@;
                let ghost na = old(self).next_account_id;
                let mut g = self.groups.remove(i);
                let a = Account { id, group_id, label, secret };
                g.entries.push(a);
                self.groups.insert(i, g);
                self.next_account_id = id + 1;
                proof {
                    let news = self.groups@;
                    assert(news =~= olds.update(i as int, news[i as int]));
                    assert(news[i as int].entries@ =~= olds[i as int].entries@.push(a));
                    assert forall|j: int| 0 <= j < news.len() implies group_ok(
                        #[trigger] news[j],
                        self.next_group_id,
                        self.next_account_id,
                    ) by {
                        assert(group_ok(olds[j], self.next_group_id, na));
                        if j != i as int {
                            assert(news[j] == olds[j]);
                            assert forall|k: int| 0 <= k < news[j].entries@.len() implies
                                account_ok(
                                #[trigger] news[j].entries@[k],
                                news[j].id,
                                self.next_account_id,
                            ) by {
                                assert(account_ok(olds[j].entries@[k], olds[j].id, na));
                            }
                        } else {
                            assert forall|k: int| 0 <= k < news[j].entries@.len() implies
                                account_ok(
                                #[trigger] news[j].entries@[k],
                                news[j].id,
                                self.next_account_id,
                            ) by {
                                if k < olds[j].entries@.len() {
                                    assert(account_ok(olds[j].entries@[k], olds[j].id, na));
                                } else {
                                    assert(news[j].entries@[k] == a);
                                }
                            }
                        }
                    }
                    assert forall|x: int, y: int|
                        0 <= x < news.len() && 0 <= y < news.len() && x != y implies (
                    #[trigger] news[x]).id != (#[trigger] news[y]).id by {
                        assert(news[x].id == olds[x].id);
                        assert(news[y].id == olds[y].id);
                    }
                    assert forall|x: int, k: int, y: int, l: int|
                        0 <= x < news.len() && 0 <= k < news[x].entries@.len() && 0 <= y
                            < news.len() && 0 <= l < news[y].entries@.len() && (x != y || k != l)
                        implies (#[trigger] news[x].entries@[k]).id != (
                    #[trigger] news[y].entries@[l]).id by {
                        let oldx = x != i as int || k < olds[i as int].entries@.len();
                        let oldy = y != i as int || l < olds[i as int].entries@.len();
                        if oldx && oldy {
                            assert(news[x].entries@[k] == olds[x].entries@[k]);
                            assert(news[y].entries@[l] == olds[y].entries@[l]);
                            assert(olds[x].entries@[k].id != olds[y].entries@[l].id);
                        } else if oldx {
                            assert(news[y].entries@[l] == a);
                            assert(account_ok(olds[x].entries@[k], olds[x].id, na));
                            assert(news[x].entries@[k] == olds[x].entries@[k]);
                        } else if oldy {
                            assert(news[x].entries@[k] == a);
                            assert(account_ok(olds[y].entries@[l], olds[y].id, na));
                            assert(news[y].entries@[l] == olds[y].entries@[l]);
                        }
                    }
                }
                Result::Ok(id)
            },
        }
    }

    /// Replaces label and secret of the account with the given identifier,
    /// keeping its identity and position. Fails exactly on a missing account
    /// or an empty secret.
    pub fn update_account(&mut self, id: u32, label: String, secret: String) -> (r: Result<
        (),
        StoreError,
    >)
        requires
            store_wf(*old(self)),
        ensures
            store_wf(*final(self)),
            r is Ok <==> (has_account(old(self).groups@, id) && secret@.len() > 0),
            r matches Err(e) ==> {
                &&& *final(self) == *old(self)
                &&& (e == StoreError::AccountNotFound <==> !has_account(old(self).groups@, id))
                &&& (e == StoreError::EmptySecret <==> has_account(old(self).groups@, id)
                    && secret@.len() == 0)
            },
            r is Ok ==> {
                &&& final(self).next_group_id == old(self).next_group_id
                &&& final(self).next_account_id == old(self).next_account_id
                &&& final(self).groups@.len() == old(self).groups@.len()
                &&& forall|j: int|
                    0 <= j < old(self).groups@.len() && j != account_pos(old(self).groups@, id).0
                        ==> final(self).groups@[j] == old(self).groups@[j]
                &&& {
                    let p = account_pos(old(self).groups@, id);
                    let oldg = old(self).groups@[p.0];
                    let newg = final(self).groups@[p.0];
                    &&& newg.id == oldg.id
                    &&& newg.name == oldg.name
                    &&& newg.icon == oldg.icon
                    &&& newg.url == oldg.url
                    &&& newg.entries@.len() == oldg.entries@.len()
                    &&& forall|l: int|
                        0 <= l < oldg.entries@.len() && l != p.1 ==> newg.entries@[l]
                            == oldg.entries@[l]
                    &&& newg.entries@[p.1].id == id
                    &&& newg.entries@[p.1].group_id == oldg.entries@[p.1].group_id
                    &&& newg.entries@[p.1].label == label
                    &&& newg.entries@[p.1].secret == secret
                }
            },
    {
        let found = self.find_account_index(id);
        match found {
            Option::None => Result::Err(StoreError::AccountNotFound),
            Option::Some((i, k)) => {
                proof {
                    assert(has_account(self.groups@, id));
                    let p = account_pos(self.groups@, id);
                    assert(0 <= p.0 < self.groups@.len() && 0 <= p.1 < self.groups@[
                        p.0
                    ].entries@.len() && self.groups@[p.0].entries@[p.1].id == id);
                    assert(p.0 == i as int && p.1 == k as int);
                }
                if secret.as_str().is_empty() {
                    return Result::Err(StoreError::EmptySecret);
                }
                let ghost olds = self.groups@;
                let mut g = self.groups.remove(i);
                let ghost olde = g.entries@;
                let mut a = g.entries.remove(k);
                a.label = label;
                a.secret = secret;
                g.entries.insert(k, a);
                self.groups.insert(i, g);
                proof {
                    let news = self.groups@;
                    assert(news =~= olds.update(i as int, news[i as int]));
                    assert(news[i as int].entries@ =~= olde.update(k as int, a));
                    assert forall|j: int| 0 <= j < news.len() implies group_ok(
                        #[trigger] news[j],
                        self.next_group_id,
                        self.next_account_id,
                    ) by {
                        assert(group_ok(olds[j], self.next_group_id, self.next_account_id));
                        assert forall|l: int| 0 <= l < news[j].entries@.len() implies account_ok(
                            #[trigger] news[j].entries@[l],
                            news[j].id,
                            self.next_account_id,
                        ) by {
                            assert(account_ok(olds[j].entries@[l], olds[j].id,
                                self.next_account_id));
                            if j == i as int && l == k as int {
                                assert(news[j].entries@[l] == a);
                            } else {
                                assert(news[j].entries@[l] == olds[j].entries@[l]);
                            }
                        }
                    }
                    assert forall|x: int, y: int|
                        0 <= x < news.len() && 0 <= y < news.len() && x != y implies (
                    #[trigger] news[x]).id != (#[trigger] news[y]).id by {
                        assert(news[x].id == olds[x].id);
                        assert(news[y].id == olds[y].id);
                    }
                    assert forall|x: int, c: int, y: int, l: int|
                        0 <= x < news.len() && 0 <= c < news[x].entries@.len() && 0 <= y
                            < news.len() && 0 <= l < news[y].entries@.len() && (x != y || c != l)
                        implies (#[trigger] news[x].entries@[c]).id != (
                    #[trigger] news[y].entries@[l]).id by {
                        assert(news[x].entries@[c].id == olds[x].entries@[c].id);
                        assert(news[y].entries@[l].id == olds[y].entries@[l].id);
                        assert(olds[x].entries@[c].id != olds[y].entries@[l].id);
                    }
                }
                Result::Ok(())
            },
        }
    }

    /// Removes the account with the given identifier from its group,
    /// preserving the order of the remaining entries.
    pub fn delete_account(&mut self, id: u32) -> (r: Result<(), StoreError>)
        requires
            store_wf(*old(self)),
        ensures
            store_wf(*final(self)),
            r is Ok <==> has_account(old(self).groups@, id),
            r matches Err(e) ==> {
                &&& *final(self) == *old(self)
                &&& e == StoreError::AccountNotFound
                &&& !has_account(old(self).groups@, id)
            },
            r is Ok ==> {
                &&& final(self).next_group_id == old(self).next_group_id
                &&& final(self).next_account_id == old(self).next_account_id
                &&& final(self).groups@.len() == old(self).groups@.len()
                &&& forall|j: int|
                    0 <= j < old(self).groups@.len() && j != account_pos(old(self).groups@, id).0
                        ==> final(self).groups@[j] == old(self).groups@[j]
                &&& {
                    let p = account_pos(old(self).groups@, id);
                    let oldg = old(self).groups@[p.0];
                    let newg = final(self).groups@[p.0];
                    &&& newg.id == oldg.id
                    &&& newg.name == oldg.name
                    &&& newg.icon == oldg.icon
                    &&& newg.url == oldg.url
                    &&& newg.entries@ == oldg.entries@.remove(p.1)
                }
            },
    {
        let found = self.find_account_index(id);
        match found {
            Option::None => Result::Err(StoreError::AccountNotFound),
            Option::Some((i, k)) => {
                proof {
                    assert(has_account(self.groups@, id));
                    let p = account_pos(self.groups@, id);
                    assert(0 <= p.0 < self.groups@.len() && 0 <= p.1 < self.groups@[
                        p.0
                    ].entries@.len() && self.groups@[p.0].entries@[p.1].id == id);
                    assert(p.0 == i as int && p.1 == k as int);
                }
                let ghost olds = self.groups@;
                let mut g = self.groups.remove(i);
                let ghost olde = g.entries@;
                g.entries.remove(k);
                self.groups.insert(i, g);
                proof {
                    let news = self.groups@;
                    assert(news =~= olds.update(i as int, news[i as int]));
                    assert(news[i as int].entries@ =~= olde.remove(k as int));
                    olde.remove_ensures(k as int);
                    assert forall|j: int| 0 <= j < news.len() implies group_ok(
                        #[trigger] news[j],
                        self.next_group_id,
                        self.next_account_id,
                    ) by {
                        assert(group_ok(olds[j], self.next_group_id, self.next_account_id));
                        assert forall|l: int| 0 <= l < news[j].entries@.len() implies account_ok(
                            #[trigger] news[j].entries@[l],
                            news[j].id,
                            self.next_account_id,
                        ) by {
                            if j == i as int {
                                let l0 = if l < k as int { l } else { l + 1 };
                                assert(news[j].entries@[l] == olds[j].entries@[l0]);
                                assert(account_ok(olds[j].entries@[l0], olds[j].id,
                                    self.next_account_id));
                            } else {
                                assert(account_ok(olds[j].entries@[l], olds[j].id,
                                    self.next_account_id));
                            }
                        }
                    }
                    assert forall|x: int, y: int|
                        0 <= x < news.len() && 0 <= y < news.len() && x != y implies (
                    #[trigger] news[x]).id != (#[trigger] news[y]).id by {
                        assert(news[x].id == olds[x].id);
                        assert(news[y].id == olds[y].id);
                    }
                    assert forall|x: int, c: int, y: int, l: int|
                        0 <= x < news.len() && 0 <= c < news[x].entries@.len() && 0 <= y
                            < news.len() && 0 <= l < news[y].entries@.len() && (x != y || c != l)
                        implies (#[trigger] news[x].entries@[c]).id != (
                    #[trigger] news[y].entries@[l]).id by {
                        let c0 = if x == i as int && c >= k as int { c + 1 } else { c };
                        let l0 = if y == i as int && l >= k as int { l + 1 } else { l };
                        assert(news[x].entries@[c] == olds[x].entries@[c0]);
                        assert(news[y].entries@[l] == olds[y].entries@[l0]);
                        assert(olds[x].entries@[c0].id != olds[y].entries@[l0].id);
                    }
                }
                Result::Ok(())
            },
        }
    }
}

/// Field-wise logical equality of accounts, identifiers included.
pub open spec fn account_like(a: Account, b: Account) -> bool {
    &&& a.id == b.id
    &&& a.group_id == b.group_id
    &&& a.label@ == b.label@
    &&& a.secret@ == b.secret@
}

/// Field-wise logical equality of groups, identifiers included.
pub open spec fn group_like(a: AccountGroup, b: AccountGroup) -> bool {
    &&& a.id == b.id
    &&& a.name@ == b.name@
    &&& opt_view(a.icon) == opt_view(b.icon)
    &&& opt_view(a.url) == opt_view(b.url)
    &&& a.entries@.len() == b.entries@.len()
    &&& forall|k: int| 0 <= k < a.entries@.len() ==> account_like(
        #[trigger] a.entries@[k],
        b.entries@[k],
    )
}

pub open spec fn groups_like(a: Seq<AccountGroup>, b: Seq<AccountGroup>) -> bool {
    &&& a.len() == b.len()
    &&& forall|i: int| 0 <= i < a.len() ==> group_like(#[trigger] a[i], b[i])
}

/// Round-trip law: the backup written for any well-formed store parses back
/// to exactly the same logical tree — same names, urls, labels, secrets and
/// ordering; identifiers are not part of the backup and are re-derived on
/// import.
pub proof fn lemma_export_import_round_trip(s: Store)
    requires
        store_wf(s),
    ensures
        spec_parse_backup(spec_ser_backup(tree_data(s.groups@))) == Option::Some(
            tree_data(s.groups@),
        ),
{
    lemma_store_backup_wf(s);
    codec::lemma_backup_round_trip(tree_data(s.groups@));
}

pub(crate) fn copy_opt_string(o: &Option<String>) -> (r: Option<String>)
    ensures
        opt_view(r) == opt_view(*o),
{
    match o {
        Option::Some(s) => Option::Some(s.clone()),
        Option::None => Option::None,
    }
}

fn copy_group(g: &AccountGroup) -> (r: AccountGroup)
    ensures
        group_like(r, *g),
{
    let mut entries: Vec<Account> = Vec::new();
    let n = g.entries.len();
    let mut k: usize = 0;
    while k < n
        invariant
            n == g.entries@.len(),
            k <= n,
            entries@.len() == k,
            forall|l: int| 0 <= l < k ==> account_like(#[trigger] entries@[l], g.entries@[l]),
        decreases n - k,
    {
        let a = &g.entries[k];
        let c = Account {
            id: a.id,
            group_id: a.group_id,
            label: a.label.clone(),
            secret: a.secret.clone(),
        };
        entries.push(c);
        k = k + 1;
    }
    AccountGroup {
        id: g.id,
        name: g.name.clone(),
        icon: copy_opt_string(&g.icon),
        url: copy_opt_string(&g.url),
        entries,
    }
}

/// Number of accounts in a whole backup tree.
pub open spec fn total_entries(gs: Seq<GroupData>) -> int
    decreases gs.len(),
{
    if gs.len() == 0 {
        0
    } else {
        gs[0].entries.len() + total_entries(gs.skip(1))
    }
}

/// A backup small enough that every group and account can be given a fresh
/// `u32` identifier on import.
pub open spec fn backup_fits(gs: Seq<GroupData>) -> bool {
    &&& gs.len() < 0xffff_ffff
    &&& total_entries(gs) < 0xffff_ffff
}

pub proof fn lemma_total_entries_nonneg(gs: Seq<GroupData>)
    ensures
        total_entries(gs) >= 0,
    decreases gs.len(),
{
    if gs.len() > 0 {
        lemma_total_entries_nonneg(gs.skip(1));
    }
}

pub proof fn lemma_total_entries_push(gs: Seq<GroupData>, g: GroupData)
    ensures
        total_entries(gs.push(g)) == total_entries(gs) + g.entries.len(),
    decreases gs.len(),
{
    if gs.len() == 0 {
        assert(gs.push(g)[0] == g);
        assert(gs.push(g).skip(1) =~= Seq::<GroupData>::empty());
        assert(total_entries(gs.push(g)) == g.entries.len() + total_entries(
            Seq::<GroupData>::empty(),
        ));
        assert(total_entries(gs) == 0);
    } else {
        assert(gs.push(g)[0] == gs[0]);
        assert(gs.push(g).skip(1) =~= gs.skip(1).push(g));
        lemma_total_entries_push(gs.skip(1), g);
        assert(total_entries(gs.push(g)) == gs[0].entries.len() + total_entries(
            gs.skip(1).push(g),
        ));
        assert(total_entries(gs) == gs[0].entries.len() + total_entries(gs.skip(1)));
    }
}

pub proof fn lemma_total_entries_take_le(gs: Seq<GroupData>, i: int)
    requires
        0 <= i <= gs.len(),
    ensures
        total_entries(gs.take(i)) <= total_entries(gs),
    decreases gs.len() - i,
{
    if i == gs.len() {
        assert(gs.take(i) =~= gs);
    } else {
        assert(gs.take(i + 1) =~= gs.take(i).push(gs[i]));
        lemma_total_entries_push(gs.take(i), gs[i]);
        lemma_total_entries_take_le(gs, i + 1);
    }
}

impl Store {
    /// Builds a fresh store from backup bytes, re-deriving all identifiers.
    /// Succeeds exactly when the bytes parse and the tree is small enough to
    /// number; icons are runtime-only and come back absent.
    #[verifier::rlimit(100)]
    pub fn from_backup(data: &[u8]) -> (r: Option<Store>)
        ensures
            match r {
                Option::Some(s) => {
                    &&& spec_parse_backup(data@) == Option::Some(tree_data(s.groups@))
                    &&& backup_fits(tree_data(s.groups@))
                    &&& store_wf(s)
                },
                Option::None => match spec_parse_backup(data@) {
                    Option::Some(gs) => !backup_fits(gs),
                    Option::None => true,
                },
            },
    {
        let parsed = match codec::parse_backup(data) {
            Option::None => {
                return Option::None;
            },
            Option::Some(v) => v,
        };
        let ghost td = tree_data(parsed@);
        proof {
            codec::lemma_parse_groups_wf(data@.skip(10));
            assert(backup_wf(td));
        }
        let n = parsed.len();
        if n as u64 >= 0xffff_ffffu64 {
            proof {
                assert(td.len() >= 0xffff_ffff);
                assert(!backup_fits(td));
            }
            return Option::None;
        }
        let mut total: u64 = 0;
        let mut i: usize = 0;
        proof {
            assert(td.take(0) =~= Seq::<GroupData>::empty());
        }
        while i < n
            invariant
                n == parsed@.len(),
                td == tree_data(parsed@),
                spec_parse_backup(data@) == Option::Some(td),
                td.len() == n,
                i <= n,
                total == total_entries(td.take(i as int)),
                total < 0xffff_ffffu64,
            decreases n - i,
        {
            let el = parsed[i].entries.len();
            proof {
                assert(td.take(i as int + 1) =~= td.take(i as int).push(td[i as int]));
                lemma_total_entries_push(td.take(i as int), td[i as int]);
                assert(td[i as int].entries.len() == parsed@[i as int].entries@.len());
            }
            if el as u64 >= 0xffff_ffffu64 - total {
                proof {
                    lemma_total_entries_take_le(td, i as int + 1);
                    assert(total_entries(td.take(i as int + 1)) == total as int + el as int);
                    assert(total_entries(td) >= 0xffff_ffff);
                    assert(!backup_fits(td));
                }
                return Option::None;
            }
            total = total + (el as u64);
            i = i + 1;
        }
        proof {
            assert(td.take(n as int) =~= td);
            assert(total_entries(td) < 0xffff_ffff);
            assert(backup_fits(td));
        }
        let mut parsed = parsed;
        let mut groups: Vec<AccountGroup> = Vec::new();
        let mut na: u32 = 1;
        let mut gi: usize = 0;
        proof {
            assert(tree_data(groups@) =~= td.take(0));
            assert(tree_data(parsed@) =~= td.skip(0));
        }
        while gi < n
            invariant
                n < 0xffff_ffff,
                td.len() == n,
                backup_wf(td),
                total_entries(td) < 0xffff_ffff,
                gi <= n,
                groups@.len() == gi,
                parsed@.len() == n - gi,
                tree_data(parsed@) == td.skip(gi as int),
                tree_data(groups@) == td.take(gi as int),
                na as int == 1 + total_entries(td.take(gi as int)),
                forall|j: int| 0 <= j < gi ==> (#[trigger] groups@[j]).id == j + 1,
                forall|j: int, k: int|
                    0 <= j < gi && 0 <= k < groups@[j].entries@.len() ==> (
                    #[trigger] groups@[j].entries@[k]).id < na && groups@[j].entries@[k].group_id
                        == j + 1,
                forall|x: int, c: int, y: int, l: int|
                    0 <= x < gi && 0 <= c < groups@[x].entries@.len() && 0 <= y < gi && 0 <= l
                        < groups@[y].entries@.len() && (x != y || c != l) ==> (
                    #[trigger] groups@[x].entries@[c]).id != (#[trigger] groups@[y].entries@[l]).id,
            decreases n - gi,
        {
            proof {
                assert(tree_data(parsed@)[0] == td[gi as int]);
                assert(group_data(parsed@[0]) == td[gi as int]);
                assert(td.take(gi as int + 1) =~= td.take(gi as int).push(td[gi as int]));
                lemma_total_entries_push(td.take(gi as int), td[gi as int]);
                lemma_total_entries_take_le(td, gi as int + 1);
                assert(group_data_wf(td[gi as int]));
            }
            let g = parsed.remove(0);
            proof {
                assert(group_data(g) == td[gi as int]);
                assert(tree_data(parsed@) =~= td.skip(gi as int).skip(1));
                assert(td.skip(gi as int).skip(1) =~= td.skip(gi as int + 1));
            }
            let gid = (gi as u32) + 1;
            let AccountGroup { id: _, name, icon, url, entries: src } = g;
            let ghost ed = td[gi as int].entries;
            proof {
                assert(src@.map_values(|a: Account| account_data(a)) == ed);
            }
            let mut src = src;
            let mut dst: Vec<Account> = Vec::new();
            let ghost na0 = na;
            proof {
                assert(ed.take(0) =~= Seq::<EntryData>::empty());
                lemma_total_entries_nonneg(td.take(gi as int));
                assert(na0 as int + ed.len() <= 1 + total_entries(td) < 4294967296int);
                assert(ed.len() < 0xffff_ffff);
            }
            while src.len() > 0
                invariant
                    ed.len() < 0xffff_ffff,
                    na0 as int + ed.len() < 4294967296int,
                    dst@.len() + src@.len() == ed.len(),
                    src@.map_values(|a: Account| account_data(a)) == ed.skip(dst@.len() as int),
                    dst@.map_values(|a: Account| account_data(a)) == ed.take(dst@.len() as int),
                    na as int == na0 as int + dst@.len(),
                    forall|l: int| 0 <= l < dst@.len() ==> (#[trigger] dst@[l]).id == na0 + l
                        && dst@[l].group_id == gid,
                decreases src@.len(),
            {
                let ghost srcs = src@;
                let ghost done = dst@.len() as int;
                let mut a = src.remove(0);
                proof {
                    assert(srcs.map_values(|x: Account| account_data(x))[0] == account_data(
                        srcs[0],
                    ));
                    assert(account_data(srcs[0]) == ed[done]);
                    assert(src@ =~= srcs.skip(1));
                    assert(src@.map_values(|x: Account| account_data(x)) =~= srcs.map_values(
                        |x: Account| account_data(x),
                    ).skip(1));
                    assert(srcs.map_values(|x: Account| account_data(x)).skip(1) =~= ed.skip(
                        done + 1,
                    ));
                }
                a.id = na;
                a.group_id = gid;
                proof {
                    assert(account_data(a) == ed[done]);
                }
                dst.push(a);
                na = na + 1;
                proof {
                    assert(dst@.map_values(|x: Account| account_data(x)) =~= ed.take(done + 1));
                }
            }
            proof {
                assert(dst@.map_values(|x: Account| account_data(x)) =~= ed);
            }
            let ng = AccountGroup { id: gid, name, icon, url, entries: dst };
            let ghost oldgroups = groups@;
            groups.push(ng);
            gi = gi + 1;
            proof {
                assert(group_data(ng) =~= td[gi as int - 1]);
                assert(tree_data(groups@) =~= td.take(gi as int)) by {
                    assert(groups@ =~= oldgroups.push(ng));
                    assert(tree_data(groups@).len() == gi);
                    assert forall|j: int| 0 <= j < gi implies tree_data(groups@)[j] == td.take(
                        gi as int,
                    )[j] by {
                        if j < gi - 1 {
                            assert(tree_data(groups@)[j] == group_data(oldgroups[j]));
                            assert(tree_data(oldgroups)[j] == group_data(oldgroups[j]));
                        } else {
                            assert(tree_data(groups@)[j] == group_data(ng));
                        }
                    }
                }
                assert forall|x: int, c: int, y: int, l: int|
                    0 <= x < gi && 0 <= c < groups@[x].entries@.len() && 0 <= y < gi && 0 <= l
                        < groups@[y].entries@.len() && (x != y || c != l) implies (
                #[trigger] groups@[x].entries@[c]).id != (#[trigger] groups@[y].entries@[l]).id by {
                    if x < gi - 1 && y < gi - 1 {
                        assert(groups@[x] == oldgroups[x]);
                        assert(groups@[y] == oldgroups[y]);
                        assert(oldgroups[x].entries@[c].id != oldgroups[y].entries@[l].id);
                    } else if x < gi - 1 {
                        assert(groups@[x] == oldgroups[x]);
                        assert(oldgroups[x].entries@[c].id < na0);
                        assert(groups@[y].entries@[l].id == na0 + l);
                    } else if y < gi - 1 {
                        assert(groups@[y] == oldgroups[y]);
                        assert(oldgroups[y].entries@[l].id < na0);
                        assert(groups@[x].entries@[c].id == na0 + c);
                    } else {
                        assert(groups@[x].entries@[c].id == na0 + c);
                        assert(groups@[y].entries@[l].id == na0 + l);
                    }
                }
            }
        }
        let next_group_id = (n as u32) + 1;
        let s = Store { groups, next_group_id, next_account_id: na };
        proof {
            assert(tree_data(s.groups@) =~= td);
            assert forall|j: int| 0 <= j < s.groups@.len() implies group_ok(
                #[trigger] s.groups@[j],
                s.next_group_id,
                s.next_account_id,
            ) by {
                assert(group_data_wf(td[j]));
                assert(tree_data(s.groups@)[j] == group_data(s.groups@[j]));
                assert(s.groups@[j].name@ == td[j].name);
                lemma_total_entries_take_le(td, j + 1);
                assert forall|k: int| 0 <= k < s.groups@[j].entries@.len() implies account_ok(
                    #[trigger] s.groups@[j].entries@[k],
                    s.groups@[j].id,
                    s.next_account_id,
                ) by {
                    assert(account_data(s.groups@[j].entries@[k]) == td[j].entries[k]);
                    assert(entry_data_wf(td[j].entries[k]));
                    assert(s.groups@[j].entries@[k].secret@ == td[j].entries[k].secret);
                }
            }
        }
        Option::Some(s)
    }

    /// Serializes the store to backup bytes; never fails, never writes a
    /// partial tree.
    pub fn export_bytes(&self) -> (out: Vec<u8>)
        ensures
            out@ == spec_ser_backup(tree_data(self.groups@)),
    {
        codec::serialize_backup(&self.groups)
    }

    /// Replaces the whole store from backup bytes as one logical step: on
    /// any parse failure the store is left exactly as it was.
    pub fn import_bytes(&mut self, data: &[u8]) -> (ok: bool)
        requires
            store_wf(*old(self)),
        ensures
            store_wf(*final(self)),
            ok <==> (match spec_parse_backup(data@) {
                Option::Some(gs) => backup_fits(gs),
                Option::None => false,
            }),
            ok ==> spec_parse_backup(data@) == Option::Some(tree_data(final(self).groups@)),
            !ok ==> *final(self) == *old(self),
    {
        match Store::from_backup(data) {
            Option::None => false,
            Option::Some(s) => {
                *self = s;
                true
            },
        }
    }

    /// Reads the whole tree, preserving group and entry order: a deep copy
    /// that is field-for-field logically equal to the store's contents.
    pub fn load_account_groups(&self) -> (r: Vec<AccountGroup>)
        ensures
            groups_like(r@, self.groups@),
    {
        let mut out: Vec<AccountGroup> = Vec::new();
        let n = self.groups.len();
        let mut i: usize = 0;
        while i < n
            invariant
                n == self.groups@.len(),
                i <= n,
                out@.len() == i,
                forall|j: int| 0 <= j < i ==> group_like(#[trigger] out@[j], self.groups@[j]),
            decreases n - i,
        {
            let c = copy_group(&self.groups[i]);
            out.push(c);
            i = i + 1;
        }
        out
    }
}

} // verus!
