//! Paths that an administrator has pinned.

use vstd::prelude::*;

use crate::error::{refusal, ControlPlaneError, ControlPlaneErrorView};
use crate::ids::{NodeId, ScopedName};
use crate::lists::{first_in, lemma_first_in_extends};
use crate::map::{lemma_key_position, OrderedMap, TextKey};
use crate::order::{
    key_view, keys_of, keys_view, sort_records, sorted_by, KeyPart, KeyPartView, KeyView,
};
use crate::store::two;
use crate::types::{views, PathRecord, PathRecordView, PeerPathKeyView, Record};
use vstd::utf8::*;

verus! {

/// The paths that are pinned or not, whatever their nodes report.
#[derive(Debug)]
pub struct AdminPathPins {
    pub pins: OrderedMap<ScopedName, bool>,
}

impl View for AdminPathPins {
    type V = Map<Seq<Seq<char>>, bool>;

    open spec fn view(&self) -> Map<Seq<Seq<char>>, bool> {
        self.pins@
    }
}

/// The key of a path among the pins.
pub open spec fn pin_key(key: PeerPathKeyView) -> Seq<Seq<char>> {
    two(key.local, key.remote)
}

/// The path with the pin that is set for it.
pub open spec fn with_pin(path: PathRecordView, pins: Map<Seq<Seq<char>>, bool>) -> PathRecordView {
    PathRecordView {
        pinned: if pins.dom().contains(pin_key(path.key)) {
            pins[pin_key(path.key)]
        } else {
            path.pinned
        },
        ..path
    }
}

/// The paths with the pins that are set for them.
pub open spec fn with_pins(paths: Seq<PathRecordView>, pins: Map<Seq<Seq<char>>, bool>) -> Seq<
    PathRecordView,
> {
    Seq::new(paths.len(), |i: int| with_pin(paths[i], pins))
}

/// The pins of the paths that do not begin or end at a node.
pub open spec fn pins_without(pins: Map<Seq<Seq<char>>, bool>, node_id: Seq<char>) -> Map<
    Seq<Seq<char>>,
    bool,
> {
    Map::new(
        |key: Seq<Seq<char>>| pins.dom().contains(key) && key[0] != node_id && key[1] != node_id,
        |key: Seq<Seq<char>>| pins[key],
    )
}

/// The first of the paths between two nodes.
pub open spec fn path_between(paths: Seq<PathRecordView>, local: Seq<char>, remote: Seq<char>) -> Option<
    PathRecordView,
> {
    first_in(paths.len(), |i: int| path_if_between(paths[i], local, remote))
}

/// The path, where it leads from the one node to the other.
pub open spec fn path_if_between(
    path: PathRecordView,
    local: Seq<char>,
    remote: Seq<char>,
) -> Option<PathRecordView> {
    if path.key.local == local && path.key.remote == remote {
        Some(path)
    } else {
        None
    }
}

/// Why a pin cannot be set: one of the nodes is not registered, or there is no such path.
pub open spec fn pin_refusal(
    local: Seq<char>,
    remote: Seq<char>,
    local_registered: bool,
    remote_registered: bool,
    paths: Seq<PathRecordView>,
) -> Option<ControlPlaneErrorView> {
    if !local_registered {
        Some(ControlPlaneErrorView::NodeNotFound { node_id: local })
    } else if !remote_registered {
        Some(ControlPlaneErrorView::NodeNotFound { node_id: remote })
    } else if path_between(paths, local, remote) is None {
        Some(ControlPlaneErrorView::PathNotFound { local, remote })
    } else {
        None
    }
}

fn find_between(paths: &Vec<PathRecord>, local: &NodeId, remote: &NodeId) -> (r: Option<usize>)
    ensures
        match r {
            Some(i) => i < paths@.len() && path_between(views(paths@), local@, remote@) == Some(
                paths@[i as int]@,
            ),
            None => path_between(views(paths@), local@, remote@) is None,
        },
{
    let ghost all = views(paths@);
    let ghost f = |i: int| path_if_between(all[i], local@, remote@);
    let mut i: usize = 0;
    while i < paths.len()
        invariant
            i <= paths@.len(),
            all == views(paths@),
            f == (|i: int| path_if_between(all[i], local@, remote@)),
            first_in(i as nat, f) is None,
        decreases paths@.len() - i,
    {
        assert(all[i as int] == paths@[i as int]@);
        if paths[i].key.local == *local && paths[i].key.remote == *remote {
            proof {
                lemma_first_in_extends((i + 1) as nat, all.len(), f);
            }
            return Some(i);
        }
        i = i + 1;
    }
    None
}

impl AdminPathPins {
    /// The entries stand in the order of their keys.
    pub open spec fn wf(&self) -> bool {
        self.pins.wf()
    }

    /// No pins.
    pub fn new() -> (r: Self)
        ensures
            r.wf(),
            r@ == Map::<Seq<Seq<char>>, bool>::empty(),
    {
        AdminPathPins { pins: OrderedMap::new() }
    }

    /// The paths with the pins that are set for them.
    pub fn apply_admin_path_pins(&self, paths: &mut Vec<PathRecord>)
        requires
            self.wf(),
        ensures
            views(final(paths)@) == with_pins(views(old(paths)@), self@),
    {
        let ghost before = views(paths@);
        let mut i: usize = 0;
        while i < paths.len()
            invariant
                self.wf(),
                i <= paths@.len(),
                paths@.len() == before.len(),
                before == views(old(paths)@),
                forall|k: int| 0 <= k < i ==> (#[trigger] paths@[k])@ == with_pin(before[k], self@),
                forall|k: int| i <= k < before.len() ==> (#[trigger] paths@[k])@ == before[k],
            decreases paths@.len() - i,
        {
            let key = ScopedName {
                scope: paths[i].key.local.value.clone(),
                name: paths[i].key.remote.value.clone(),
            };
            assert(key.parts() =~= pin_key(paths@[i as int]@.key));
            if let Some(pinned) = self.pins.get(&key) {
                let mut path = paths[i].duplicate();
                path.pinned = *pinned;
                paths.set(i, path);
            }
            i = i + 1;
        }
        assert(views(paths@) =~= with_pins(before, self@));
    }

    /// Pins a path, or takes the pin off. `paths` lists the paths of the first node.
    pub fn set_admin_path_pin(
        &mut self,
        local: &NodeId,
        remote: &NodeId,
        local_registered: bool,
        remote_registered: bool,
        paths: &Vec<PathRecord>,
        pinned: bool,
    ) -> (r: Result<PathRecord, ControlPlaneError>)
        requires
            old(self).wf(),
        ensures
            final(self).wf(),
            refusal(r) == pin_refusal(
                local@,
                remote@,
                local_registered,
                remote_registered,
                views(paths@),
            ),
            match r {
                Ok(path) => {
                    &&& path@ == (PathRecordView {
                        pinned,
                        ..path_between(views(paths@), local@, remote@)->0
                    })
                    &&& final(self)@ == (if pinned {
                        old(self)@.insert(two(local@, remote@), true)
                    } else {
                        old(self)@.remove(two(local@, remote@))
                    })
                },
                Err(_) => final(self)@ == old(self)@,
            },
    {
        if !local_registered {
            return Err(ControlPlaneError::NodeNotFound { node_id: local.clone() });
        }
        if !remote_registered {
            return Err(ControlPlaneError::NodeNotFound { node_id: remote.clone() });
        }
        let i = match find_between(paths, local, remote) {
            Some(i) => i,
            None => return Err(
                ControlPlaneError::PathNotFound { local: local.clone(), remote: remote.clone() },
            ),
        };
        let key = ScopedName { scope: local.value.clone(), name: remote.value.clone() };
        assert(key.parts() =~= two(local@, remote@));
        if pinned {
            let earlier = self.pins.insert(key, true);
        } else {
            let earlier = self.pins.remove(&key);
        }
        let mut path = paths[i].duplicate();
        path.pinned = pinned;
        Ok(path)
    }

    /// Forgets the pins of the paths that begin or end at a node.
    pub fn forget_node(&mut self, node_id: &NodeId)
        requires
            old(self).wf(),
        ensures
            final(self).wf(),
            final(self)@ == pins_without(old(self)@, node_id@),
    {
        let ghost before = self@;
        let mut i: usize = 0;
        while i < self.pins.entries.len()
            invariant
                self.wf(),
                i <= self.pins.entries@.len(),
                forall|key: Seq<Seq<char>>| #[trigger]
                    self@.dom().contains(key) ==> before.dom().contains(key) && self@[key]
                        == before[key],
                forall|key: Seq<Seq<char>>|
                    #![trigger before.dom().contains(key)]
                    before.dom().contains(key) && !self@.dom().contains(key) ==> key[0] == node_id@
                        || key[1] == node_id@,
                forall|k: int|
                    0 <= k < i ==> (#[trigger] self.pins.entries@[k]).key.scope@ != node_id@
                        && self.pins.entries@[k].key.name@ != node_id@,
            decreases self.pins.entries@.len() - i,
        {
            let ghost held = self.pins.entries@;
            let ghost gone = self.pins.entries@[i as int];
            let ghost now = self@;
            proof {
                lemma_key_position(self.pins.entries@, i as int);
            }
            assert(now.dom().contains(gone.key.parts()) && now[gone.key.parts()] == gone.value);
            if self.pins.entries[i].key.scope == node_id.value || self.pins.entries[i].key.name
                == node_id.value {
                let removed = self.pins.remove_at(i);
                assert forall|key: Seq<Seq<char>>| #[trigger] self@.dom().contains(key) implies
                    before.dom().contains(key) && self@[key] == before[key] by {
                    assert(now.dom().contains(key) && now[key] == self@[key]);
                }
                assert forall|key: Seq<Seq<char>>|
                    #![trigger before.dom().contains(key)]
                    before.dom().contains(key) && !self@.dom().contains(key) implies key[0]
                    == node_id@ || key[1] == node_id@ by {
                    if now.dom().contains(key) {
                        assert(key == gone.key.parts());
                    }
                }
                assert forall|k: int| 0 <= k < i implies (
                #[trigger] self.pins.entries@[k]).key.scope@ != node_id@
                    && self.pins.entries@[k].key.name@ != node_id@ by {
                    assert(self.pins.entries@[k] == held[k]);
                }
            } else {
                i = i + 1;
            }
        }
        assert forall|key: Seq<Seq<char>>| self@.dom().contains(key) implies key[0] != node_id@
            && key[1] != node_id@ by {
            let k = crate::map::key_position(self.pins.entries@, key);
            assert(self.pins.entries@[k].key.parts() == key);
        }
        assert(self@ =~= pins_without(before, node_id@));
    }
}

/// The key by which paths are listed: the two ends.
pub open spec fn path_key(path: PathRecordView) -> KeyView {
    seq![
        KeyPartView::Bytes(encode_utf8(path.key.local)),
        KeyPartView::Bytes(encode_utf8(path.key.remote)),
    ]
}

fn path_sort_key(path: &PathRecord) -> (r: Vec<KeyPart>)
    ensures
        key_view(r@) == path_key(path@),
{
    let mut local: Vec<u8> = Vec::new();
    crate::digest::push_bytes(&mut local, path.key.local.as_str().as_bytes());
    assert(local@ =~= encode_utf8(path@.key.local));
    let mut remote: Vec<u8> = Vec::new();
    crate::digest::push_bytes(&mut remote, path.key.remote.as_str().as_bytes());
    assert(remote@ =~= encode_utf8(path@.key.remote));
    let mut r: Vec<KeyPart> = Vec::new();
    r.push(KeyPart::Bytes(local));
    r.push(KeyPart::Bytes(remote));
    assert(key_view(r@) =~= path_key(path@));
    r
}

/// All paths in the order of their ends, with the pins that are set for them.
pub fn list_paths(paths: &Vec<PathRecord>, pins: &AdminPathPins) -> (r: Vec<PathRecord>)
    requires
        pins.wf(),
    ensures
        views(r@) == with_pins(
            sorted_by(views(paths@), |path: PathRecordView| path_key(path)),
            pins@,
        ),
{
    let ghost all = views(paths@);
    let mut keys: Vec<Vec<KeyPart>> = Vec::new();
    let mut i: usize = 0;
    while i < paths.len()
        invariant
            i <= paths@.len(),
            keys@.len() == i,
            forall|k: int| 0 <= k < i ==> key_view((#[trigger] keys@[k])@) == path_key(paths@[k]@),
        decreases paths@.len() - i,
    {
        keys.push(path_sort_key(&paths[i]));
        i = i + 1;
    }
    assert(keys_view(keys@) =~= keys_of(all, |path: PathRecordView| path_key(path)));
    let mut sorted = sort_records(paths, &keys);
    pins.apply_admin_path_pins(&mut sorted);
    sorted
}

/// A path shows the pin that was set for it last, until its node is forgotten.
pub proof fn law_pin_is_shown(
    pins: Map<Seq<Seq<char>>, bool>,
    path: PathRecordView,
    other: PathRecordView,
)
    requires
        other.key != path.key,
    ensures
        with_pin(path, pins.insert(pin_key(path.key), true)).pinned,
        with_pin(path, pins.remove(pin_key(path.key))) == path,
        with_pin(other, pins.insert(pin_key(path.key), true)) == with_pin(other, pins),
        with_pin(other, pins.remove(pin_key(path.key))) == with_pin(other, pins),
        with_pin(path, pins_without(pins, path.key.local)) == path,
        with_pin(path, pins_without(pins, path.key.remote)) == path,
{
    if pin_key(other.key) == pin_key(path.key) {
        assert(pin_key(other.key)[0] == other.key.local && pin_key(other.key)[1]
            == other.key.remote);
        assert(other.key =~= path.key);
    }
}

/// A path is pinned as it is set to be, in the direction of the path, and else as it was reported;
/// nothing else of it changes. What is set for a node is forgotten in both directions, and nothing
/// else is.
pub proof fn law_pins_are_set_per_direction(
    paths: Seq<PathRecordView>,
    pins: Map<Seq<Seq<char>>, bool>,
    i: int,
    node_id: Seq<char>,
    local: Seq<char>,
    remote: Seq<char>,
)
    requires
        0 <= i < paths.len(),
    ensures
        ({
            let key = seq![paths[i].key.local, paths[i].key.remote];
            let shown = with_pins(paths, pins)[i];
            &&& with_pins(paths, pins).len() == paths.len()
            &&& shown == PathRecordView { pinned: shown.pinned, ..paths[i] }
            &&& pins.dom().contains(key) ==> shown.pinned == pins[key]
            &&& !pins.dom().contains(key) ==> shown.pinned == paths[i].pinned
        }),
        ({
            let pair = seq![local, remote];
            let left = pins_without(pins, node_id);
            &&& left.dom().contains(pair) <==> pins.dom().contains(pair) && local != node_id
                && remote != node_id
            &&& left.dom().contains(pair) ==> left[pair] == pins[pair]
        }),
{
}

/// A pin can be set exactly where both nodes are registered and a path from the one to the other was
/// reported.
pub proof fn law_pins_are_for_reported_paths(
    local: Seq<char>,
    remote: Seq<char>,
    local_registered: bool,
    remote_registered: bool,
    paths: Seq<PathRecordView>,
)
    ensures
        pin_refusal(local, remote, local_registered, remote_registered, paths) is None <==> {
            &&& local_registered
            &&& remote_registered
            &&& exists|i: int|
                0 <= i < paths.len() && (#[trigger] paths[i]).key.local == local
                    && paths[i].key.remote == remote
        },
{
    let f = |i: int| path_if_between(paths[i], local, remote);
    crate::lists::lemma_first_in_none(paths.len(), f);
    if path_between(paths, local, remote) is Some {
        let i = crate::lists::lemma_first_in_found(paths.len(), f);
        assert(paths[i].key.local == local && paths[i].key.remote == remote);
    }
    if exists|i: int|
        0 <= i < paths.len() && (#[trigger] paths[i]).key.local == local && paths[i].key.remote
            == remote {
        let i = choose|i: int|
            0 <= i < paths.len() && (#[trigger] paths[i]).key.local == local && paths[i].key.remote
                == remote;
        assert(f(i) is Some);
    }
}

/// Paths are listed by where they lead from, and within that by where they lead to; none is left out
/// and none is added.
pub proof fn law_paths_are_listed_by_their_ends(paths: Seq<PathRecordView>)
    ensures
        ({
            let list = sorted_by(paths, |path: PathRecordView| path_key(path));
            &&& list.len() == paths.len()
            &&& forall|path: PathRecordView| list.contains(path) <==> paths.contains(path)
            &&& forall|i: int, j: int|
                0 <= i < j < list.len() ==> !crate::text::text_lt(
                    (#[trigger] list[j]).key.local,
                    (#[trigger] list[i]).key.local,
                ) && (list[i].key.local == list[j].key.local ==> !crate::text::text_lt(
                    list[j].key.remote,
                    list[i].key.remote,
                ))
        }),
{
    let key = |path: PathRecordView| path_key(path);
    let list = sorted_by(paths, key);
    crate::order::lemma_sorted_by(paths, key);
    assert forall|i: int, j: int| 0 <= i < j < list.len() implies !crate::text::text_lt(
        (#[trigger] list[j]).key.local,
        (#[trigger] list[i]).key.local,
    ) && (list[i].key.local == list[j].key.local ==> !crate::text::text_lt(
        list[j].key.remote,
        list[i].key.remote,
    )) by {
        let a = key(list[j]);
        let b = key(list[i]);
        assert(!crate::order::key_lt(a, b));
        reveal_with_fuel(crate::order::key_lt, 3);
        assert(a.skip(1)[0] == a[1] && b.skip(1)[0] == b[1]);
        crate::text::lemma_bytes_lt_irreflexive(a[0]->Bytes_0);
        crate::text::lemma_bytes_lt_irreflexive(a[1]->Bytes_0);
    }
}

} // verus!
