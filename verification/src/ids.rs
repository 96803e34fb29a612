//! Identifiers of clusters, nodes and keys, and the role and tag names of nodes.

use vstd::prelude::*;
use vstd::std_specs::cmp::PartialEqSpecImpl;

use crate::map::TextKey;
use crate::text::{text_lt, text_precedes, text_same};

verus! {

/// The role of clients, which use the mesh without joining it.
pub const CLIENT_ROLE: &'static str = "client";

/// The role name `role` is that of control-only clients.
pub open spec fn role_is_client(role: Seq<char>) -> bool {
    role == CLIENT_ROLE@
}

/// The identifier of a cluster.
#[derive(Debug)]
pub struct ClusterId {
    pub value: String,
}

impl View for ClusterId {
    type V = Seq<char>;

    open spec fn view(&self) -> Seq<char> {
        self.value@
    }
}

impl Clone for ClusterId {
    fn clone(&self) -> (r: Self)
        ensures
            r == *self,
    {
        ClusterId { value: self.value.clone() }
    }
}

impl PartialEq for ClusterId {
    fn eq(&self, other: &Self) -> (r: bool) {
        self.value == other.value
    }
}

impl PartialEqSpecImpl for ClusterId {
    open spec fn obeys_eq_spec() -> bool {
        true
    }

    open spec fn eq_spec(&self, other: &Self) -> bool {
        self@ == other@
    }
}

impl ClusterId {
    /// Takes a text as a cluster identifier.
    pub fn from_string(value: String) -> (r: Self)
        ensures
            r@ == value@,
    {
        ClusterId { value }
    }

    /// The text of the identifier.
    pub fn as_str(&self) -> (r: &str)
        ensures
            r@ == self@,
    {
        self.value.as_str()
    }
}

/// The identifier of a node or client.
#[derive(Debug)]
pub struct NodeId {
    pub value: String,
}

impl View for NodeId {
    type V = Seq<char>;

    open spec fn view(&self) -> Seq<char> {
        self.value@
    }
}

impl Clone for NodeId {
    fn clone(&self) -> (r: Self)
        ensures
            r == *self,
    {
        NodeId { value: self.value.clone() }
    }
}

impl PartialEq for NodeId {
    fn eq(&self, other: &Self) -> (r: bool) {
        self.value == other.value
    }
}

impl PartialEqSpecImpl for NodeId {
    open spec fn obeys_eq_spec() -> bool {
        true
    }

    open spec fn eq_spec(&self, other: &Self) -> bool {
        self@ == other@
    }
}

impl NodeId {
    /// Takes a text as a node identifier.
    pub fn from_string(value: String) -> (r: Self)
        ensures
            r@ == value@,
    {
        NodeId { value }
    }

    /// The text of the identifier.
    pub fn as_str(&self) -> (r: &str)
        ensures
            r@ == self@,
    {
        self.value.as_str()
    }
}

/// The identifier of an issuer key.
#[derive(Debug)]
pub struct KeyId {
    pub value: String,
}

impl View for KeyId {
    type V = Seq<char>;

    open spec fn view(&self) -> Seq<char> {
        self.value@
    }
}

impl Clone for KeyId {
    fn clone(&self) -> (r: Self)
        ensures
            r == *self,
    {
        KeyId { value: self.value.clone() }
    }
}

impl PartialEq for KeyId {
    fn eq(&self, other: &Self) -> (r: bool) {
        self.value == other.value
    }
}

impl PartialEqSpecImpl for KeyId {
    open spec fn obeys_eq_spec() -> bool {
        true
    }

    open spec fn eq_spec(&self, other: &Self) -> bool {
        self@ == other@
    }
}

impl KeyId {
    /// Takes a text as a key identifier.
    pub fn from_string(value: String) -> (r: Self)
        ensures
            r@ == value@,
    {
        KeyId { value }
    }

    /// The text of the identifier.
    pub fn as_str(&self) -> (r: &str)
        ensures
            r@ == self@,
    {
        self.value.as_str()
    }
}

/// The name of the role that a node plays in its cluster.
#[derive(Debug)]
pub struct Role {
    pub value: String,
}

impl View for Role {
    type V = Seq<char>;

    open spec fn view(&self) -> Seq<char> {
        self.value@
    }
}

impl Clone for Role {
    fn clone(&self) -> (r: Self)
        ensures
            r == *self,
    {
        Role { value: self.value.clone() }
    }
}

impl PartialEq for Role {
    fn eq(&self, other: &Self) -> (r: bool) {
        self.value == other.value
    }
}

impl PartialEqSpecImpl for Role {
    open spec fn obeys_eq_spec() -> bool {
        true
    }

    open spec fn eq_spec(&self, other: &Self) -> bool {
        self@ == other@
    }
}

impl Role {
    /// Takes a text as a role name.
    pub fn from_string(value: String) -> (r: Self)
        ensures
            r@ == value@,
    {
        Role { value }
    }

    /// The text of the name.
    pub fn as_str(&self) -> (r: &str)
        ensures
            r@ == self@,
    {
        self.value.as_str()
    }
}

impl Role {
    /// Whether this is the role of control-only clients.
    pub fn is_client(&self) -> (r: bool)
        ensures
            r == role_is_client(self@),
    {
        text_same(self.value.as_str(), CLIENT_ROLE)
    }
}

impl TextKey for NodeId {
    open spec fn parts(&self) -> Seq<Seq<char>> {
        seq![self@]
    }

    fn precedes(&self, other: &Self) -> (r: bool) {
        proof {
            crate::text::lemma_parts_lt_single(self@, other@);
        }
        text_precedes(self.value.as_str(), other.value.as_str())
    }

    fn same_key(&self, other: &Self) -> (r: bool) {
        proof {
            if self.parts() == other.parts() {
                assert(self.parts()[0] == other.parts()[0]);
            }
        }
        self.value == other.value
    }

    fn copy_key(&self) -> (r: Self) {
        self.clone()
    }
}

impl TextKey for String {
    open spec fn parts(&self) -> Seq<Seq<char>> {
        seq![self@]
    }

    fn precedes(&self, other: &Self) -> (r: bool) {
        proof {
            crate::text::lemma_parts_lt_single(self@, other@);
        }
        text_precedes(self.as_str(), other.as_str())
    }

    fn same_key(&self, other: &Self) -> (r: bool) {
        proof {
            if self.parts() == other.parts() {
                assert(self.parts()[0] == other.parts()[0]);
            }
        }
        *self == *other
    }

    fn copy_key(&self) -> (r: Self) {
        self.clone()
    }
}

/// A name that is unique only under another name.
#[derive(Debug)]
pub struct ScopedName {
    pub scope: String,
    pub name: String,
}

impl TextKey for ScopedName {
    open spec fn parts(&self) -> Seq<Seq<char>> {
        seq![self.scope@, self.name@]
    }

    fn precedes(&self, other: &Self) -> (r: bool) {
        proof {
            crate::text::lemma_parts_lt_pair(self.scope@, self.name@, other.scope@, other.name@);
        }
        text_precedes(self.scope.as_str(), other.scope.as_str()) || (self.scope == other.scope
            && text_precedes(self.name.as_str(), other.name.as_str()))
    }

    fn same_key(&self, other: &Self) -> (r: bool) {
        proof {
            if self.parts() == other.parts() {
                assert(self.parts()[0] == other.parts()[0]);
                assert(self.parts()[1] == other.parts()[1]);
            }
        }
        self.scope == other.scope && self.name == other.name
    }

    fn copy_key(&self) -> (r: Self) {
        ScopedName { scope: self.scope.clone(), name: self.name.clone() }
    }
}

impl TextKey for ClusterId {
    open spec fn parts(&self) -> Seq<Seq<char>> {
        seq![self@]
    }

    fn precedes(&self, other: &Self) -> (r: bool) {
        proof {
            crate::text::lemma_parts_lt_single(self@, other@);
        }
        text_precedes(self.value.as_str(), other.value.as_str())
    }

    fn same_key(&self, other: &Self) -> (r: bool) {
        proof {
            if self.parts() == other.parts() {
                assert(self.parts()[0] == other.parts()[0]);
            }
        }
        self.value == other.value
    }

    fn copy_key(&self) -> (r: Self) {
        self.clone()
    }
}

/// Role or tag names, of which only membership matters.
#[derive(Debug, PartialEq)]
pub struct NameSet {
    pub names: Vec<String>,
}

impl View for NameSet {
    type V = Set<Seq<char>>;

    open spec fn view(&self) -> Set<Seq<char>> {
        Set::new(|name: Seq<char>| exists|i: int| 0 <= i < self.names@.len() && (#[trigger] self.names@[i])@ == name)
    }
}

impl Clone for NameSet {
    fn clone(&self) -> (r: Self)
        ensures
            r@ == self@,
    {
        let mut names: Vec<String> = Vec::new();
        let mut i: usize = 0;
        while i < self.names.len()
            invariant
                i <= self.names@.len(),
                names@ == self.names@.take(i as int),
            decreases self.names@.len() - i,
        {
            names.push(self.names[i].clone());
            i = i + 1;
            assert(names@ =~= self.names@.take(i as int));
        }
        assert(self.names@.take(i as int) =~= self.names@);
        NameSet { names }
    }
}

impl NameSet {
    /// The set without names.
    pub fn new() -> (r: Self)
        ensures
            r@ == Set::<Seq<char>>::empty(),
    {
        let r = NameSet { names: Vec::new() };
        assert(r@ =~= Set::<Seq<char>>::empty());
        r
    }

    /// Adds a name.
    pub fn insert(&mut self, name: String)
        ensures
            final(self)@ == old(self)@.insert(name@),
    {
        let ghost before = self.names@;
        self.names.push(name);
        proof {
            let after = self.names@;
            assert forall|n: Seq<char>| #[trigger] self@.contains(n) == old(self)@.insert(name@).contains(n) by {
                if old(self)@.contains(n) {
                    let i = choose|i: int| 0 <= i < before.len() && (#[trigger] before[i])@ == n;
                    assert(after[i]@ == n);
                }
                if n == name@ {
                    assert(after[before.len() as int]@ == n);
                }
                if self@.contains(n) {
                    let i = choose|i: int| 0 <= i < after.len() && (#[trigger] after[i])@ == n;
                    if i < before.len() {
                        assert(before[i]@ == n);
                    }
                }
            }
            assert(self@ =~= old(self)@.insert(name@));
        }
    }

    /// Whether no name is in the set.
    pub fn is_empty(&self) -> (r: bool)
        ensures
            r == (self@ == Set::<Seq<char>>::empty()),
    {
        proof {
            if self.names@.len() > 0 {
                assert(self@.contains(self.names@[0]@));
                assert(!Set::<Seq<char>>::empty().contains(self.names@[0]@));
            } else {
                assert(self@ =~= Set::<Seq<char>>::empty());
            }
        }
        self.names.len() == 0
    }

    /// Whether a name is in the set.
    pub fn contains(&self, name: &str) -> (r: bool)
        ensures
            r == self@.contains(name@),
    {
        let mut i: usize = 0;
        while i < self.names.len()
            invariant
                i <= self.names@.len(),
                forall|k: int| 0 <= k < i ==> (#[trigger] self.names@[k])@ != name@,
            decreases self.names@.len() - i,
        {
            if text_same(self.names[i].as_str(), name) {
                return true;
            }
            i = i + 1;
        }
        false
    }

    /// Whether the two sets have no name in common.
    pub fn is_disjoint(&self, other: &NameSet) -> (r: bool)
        ensures
            r == self@.disjoint(other@),
    {
        let mut i: usize = 0;
        while i < self.names.len()
            invariant
                i <= self.names@.len(),
                forall|k: int| 0 <= k < i ==> !other@.contains((#[trigger] self.names@[k])@),
            decreases self.names@.len() - i,
        {
            if other.contains(self.names[i].as_str()) {
                assert(self@.contains(self.names@[i as int]@));
                return false;
            }
            i = i + 1;
        }
        true
    }

    fn is_subset(&self, other: &NameSet) -> (r: bool)
        ensures
            r == self@.subset_of(other@),
    {
        let mut i: usize = 0;
        while i < self.names.len()
            invariant
                i <= self.names@.len(),
                forall|k: int| 0 <= k < i ==> other@.contains((#[trigger] self.names@[k])@),
            decreases self.names@.len() - i,
        {
            if !other.contains(self.names[i].as_str()) {
                assert(self@.contains(self.names@[i as int]@));
                return false;
            }
            i = i + 1;
        }
        true
    }

    /// Whether the two sets have the same names.
    pub fn same_names(&self, other: &NameSet) -> (r: bool)
        ensures
            r == (self@ == other@),
    {
        let r = self.is_subset(other) && other.is_subset(self);
        proof {
            if r {
                assert(self@ =~= other@);
            }
        }
        r
    }
}

/// The texts stand in strictly ascending order.
pub open spec fn ascending_texts(list: Seq<Seq<char>>) -> bool {
    forall|i: int, j: int|
        0 <= i < j < list.len() ==> text_lt(#[trigger] list[i], #[trigger] list[j])
}

/// The names of a finite set in ascending order.
pub open spec fn sorted_names(names: Set<Seq<char>>) -> Seq<Seq<char>> {
    choose|list: Seq<Seq<char>>| #[trigger]
        ascending_texts(list) && (forall|n: Seq<char>| list.contains(n) <==> names.contains(n))
}

/// Two ascending lists of the same texts are the same.
pub proof fn lemma_ascending_unique(a: Seq<Seq<char>>, b: Seq<Seq<char>>)
    requires
        ascending_texts(a),
        ascending_texts(b),
        forall|n: Seq<char>| a.contains(n) <==> b.contains(n),
    ensures
        a == b,
    decreases a.len(),
{
    if a.len() == 0 {
        if b.len() > 0 {
            assert(b.contains(b[0]));
            assert(a.contains(b[0]));
        }
        assert(a =~= b);
    } else {
        assert(a.contains(a[0]));
        assert(b.contains(a[0]));
        let x = a.last();
        let y = b.last();
        assert(a.contains(x)) by {
            assert(a[a.len() - 1] == x);
        }
        assert(b.contains(y)) by {
            assert(b[b.len() - 1] == y);
        }
        assert(b.contains(x));
        assert(a.contains(y));
        let p = choose|p: int| 0 <= p < b.len() && b[p] == x;
        let q = choose|q: int| 0 <= q < a.len() && a[q] == y;
        if x != y {
            assert(text_lt(b[p], b[b.len() - 1]));
            assert(text_lt(a[q], a[a.len() - 1]));
            crate::text::lemma_text_lt_transitive(x, y, x);
            crate::text::lemma_text_lt_irreflexive(x);
        }
        let c = a.drop_last();
        let d = b.drop_last();
        assert forall|n: Seq<char>| c.contains(n) <==> d.contains(n) by {
            crate::text::lemma_text_lt_irreflexive(x);
            if c.contains(n) {
                let k = choose|k: int| 0 <= k < c.len() && c[k] == n;
                assert(a[k] == n);
                assert(a.contains(n));
                assert(text_lt(a[k], a[a.len() - 1]));
                let m = choose|m: int| 0 <= m < b.len() && b[m] == n;
                assert(d[m] == n);
            }
            if d.contains(n) {
                let k = choose|k: int| 0 <= k < d.len() && d[k] == n;
                assert(b[k] == n);
                assert(b.contains(n));
                assert(text_lt(b[k], b[b.len() - 1]));
                let m = choose|m: int| 0 <= m < a.len() && a[m] == n;
                assert(c[m] == n);
            }
        }
        assert(ascending_texts(c)) by {
            assert forall|i: int, j: int| 0 <= i < j < c.len() implies text_lt(
                #[trigger] c[i],
                #[trigger] c[j],
            ) by {
                assert(c[i] == a[i] && c[j] == a[j]);
            }
        }
        assert(ascending_texts(d)) by {
            assert forall|i: int, j: int| 0 <= i < j < d.len() implies text_lt(
                #[trigger] d[i],
                #[trigger] d[j],
            ) by {
                assert(d[i] == b[i] && d[j] == b[j]);
            }
        }
        lemma_ascending_unique(c, d);
        assert(a =~= c.push(x));
        assert(b =~= d.push(y));
    }
}

impl NameSet {
    /// The names in ascending order.
    pub fn sorted(&self) -> (r: Vec<String>)
        ensures
            crate::types::views(r@) == sorted_names(self@),
            ascending_texts(crate::types::views(r@)),
            forall|n: Seq<char>| crate::types::views(r@).contains(n) <==> self@.contains(n),
    {
        let mut r: Vec<String> = Vec::new();
        let mut i: usize = 0;
        while i < self.names.len()
            invariant
                i <= self.names@.len(),
                ascending_texts(crate::types::views(r@)),
                forall|n: Seq<char>|
                    crate::types::views(r@).contains(n) <==> exists|k: int|
                        0 <= k < i && (#[trigger] self.names@[k])@ == n,
            decreases self.names@.len() - i,
        {
            let ghost before = r@;
            insert_text(&mut r, self.names[i].clone());
            proof {
                let name = self.names@[i as int]@;
                assert forall|n: Seq<char>|
                    crate::types::views(r@).contains(n) <==> exists|k: int|
                        0 <= k < i + 1 && (#[trigger] self.names@[k])@ == n by {
                    if crate::types::views(r@).contains(n) && n != name {
                        assert(crate::types::views(before).contains(n));
                        let k = choose|k: int| 0 <= k < i && (#[trigger] self.names@[k])@ == n;
                        assert(0 <= k < i + 1 && self.names@[k]@ == n);
                    }
                    if n == name {
                        assert(self.names@[i as int]@ == n);
                    }
                }
            }
            i = i + 1;
        }
        proof {
            let list = crate::types::views(r@);
            assert forall|n: Seq<char>| list.contains(n) <==> self@.contains(n) by {}
            let other = sorted_names(self@);
            assert(ascending_texts(other) && (forall|n: Seq<char>|
                other.contains(n) <==> self@.contains(n)));
            lemma_ascending_unique(list, other);
        }
        r
    }
}

fn insert_text(list: &mut Vec<String>, name: String)
    requires
        ascending_texts(crate::types::views(old(list)@)),
    ensures
        ascending_texts(crate::types::views(final(list)@)),
        forall|n: Seq<char>|
            crate::types::views(final(list)@).contains(n) <==> crate::types::views(
                old(list)@,
            ).contains(n) || n == name@,
{
    let ghost before = list@;
    let ghost texts = crate::types::views(before);
    let mut i: usize = 0;
    while i < list.len() && text_precedes(list[i].as_str(), name.as_str())
        invariant
            i <= list@.len(),
            list@ == before,
            texts == crate::types::views(before),
            forall|k: int| 0 <= k < i ==> text_lt(#[trigger] texts[k], name@),
        decreases list@.len() - i,
    {
        i = i + 1;
    }
    if i < list.len() && list[i] == name {
        assert(texts[i as int] == name@);
        return ;
    }
    proof {
        if i < texts.len() {
            crate::text::lemma_text_lt_total(texts[i as int], name@);
        }
        assert forall|k: int| i <= k < texts.len() implies text_lt(name@, #[trigger] texts[k]) by {
            if k > i {
                crate::text::lemma_text_lt_transitive(name@, texts[i as int], texts[k]);
            }
        }
    }
    list.insert(i, name);
    proof {
        let after = crate::types::views(list@);
        assert(after =~= texts.insert(i as int, name@));
        assert forall|a: int, b: int| 0 <= a < b < after.len() implies text_lt(
            #[trigger] after[a],
            #[trigger] after[b],
        ) by {
            if a < i && b > i {
                crate::text::lemma_text_lt_transitive(after[a], name@, after[b]);
            } else if a > i {
                assert(after[a] == texts[a - 1] && after[b] == texts[b - 1]);
            } else if b < i {
                assert(after[a] == texts[a] && after[b] == texts[b]);
            }
        }
        assert forall|n: Seq<char>| after.contains(n) <==> texts.contains(n) || n == name@ by {
            if texts.contains(n) {
                let k = choose|k: int| 0 <= k < texts.len() && texts[k] == n;
                if k < i {
                    assert(after[k] == n);
                } else {
                    assert(after[k + 1] == n);
                }
            }
            if n == name@ {
                assert(after[i as int] == n);
            }
            if after.contains(n) {
                let k = choose|k: int| 0 <= k < after.len() && after[k] == n;
                if k < i {
                    assert(texts[k] == n);
                } else if k > i {
                    assert(texts[k - 1] == n);
                }
            }
        }
    }
}

impl NameSet {
    /// How many names are in the set.
    pub fn count(&self) -> (r: usize)
        ensures
            self@.finite(),
            r == self@.len(),
    {
        let sorted = self.sorted();
        proof {
            let list = crate::types::views(sorted@);
            assert forall|i: int, j: int| 0 <= i < j < list.len() implies list[i] != list[j] by {
                crate::text::lemma_text_lt_irreflexive(list[i]);
            }
            list.unique_seq_to_set();
            list.lemma_cardinality_of_set();
            assert(list.to_set() =~= self@);
        }
        sorted.len()
    }
}

proof fn lemma_text_added(list: Seq<Seq<char>>, name: Seq<char>) -> (more: Seq<Seq<char>>)
    requires
        ascending_texts(list),
        !list.contains(name),
    ensures
        ascending_texts(more),
        forall|n: Seq<char>| #[trigger] more.contains(n) <==> list.contains(n) || n == name,
    decreases list.len(),
{
    if list.len() == 0 {
        let more = seq![name];
        assert(more[0] == name);
        more
    } else {
        let last = list.last();
        let rest = list.drop_last();
        assert(list =~= rest.push(last));
        assert(list[list.len() - 1] == last);
        crate::text::lemma_text_lt_total(last, name);
        if text_lt(last, name) {
            let more = list.push(name);
            assert forall|i: int, j: int| 0 <= i < j < more.len() implies text_lt(
                #[trigger] more[i],
                #[trigger] more[j],
            ) by {
                if j == list.len() && i < list.len() - 1 {
                    crate::text::lemma_text_lt_transitive(list[i], last, name);
                }
            }
            assert forall|n: Seq<char>| #[trigger] more.contains(n) <==> list.contains(n) || n
                == name by {
                if list.contains(n) {
                    let i = choose|i: int| 0 <= i < list.len() && list[i] == n;
                    assert(more[i] == n);
                }
                assert(more[list.len() as int] == name);
            }
            more
        } else {
            assert forall|n: Seq<char>| #[trigger] rest.contains(n) implies list.contains(n) by {
                let i = choose|i: int| 0 <= i < rest.len() && rest[i] == n;
                assert(list[i] == n);
            }
            let more = lemma_text_added(rest, name);
            let all = more.push(last);
            assert forall|i: int, j: int| 0 <= i < j < all.len() implies text_lt(
                #[trigger] all[i],
                #[trigger] all[j],
            ) by {
                if j == more.len() {
                    assert(more.contains(all[i]));
                    if all[i] != name {
                        let x = choose|x: int| 0 <= x < rest.len() && rest[x] == all[i];
                        assert(text_lt(list[x], list[list.len() - 1]));
                    }
                }
            }
            assert forall|n: Seq<char>| #[trigger] all.contains(n) <==> list.contains(n) || n
                == name by {
                if all.contains(n) {
                    let i = choose|i: int| 0 <= i < all.len() && all[i] == n;
                    if i < more.len() {
                        assert(more[i] == n);
                        assert(more.contains(n));
                    }
                }
                if list.contains(n) {
                    let i = choose|i: int| 0 <= i < list.len() && list[i] == n;
                    if i < rest.len() {
                        assert(rest[i] == n);
                        assert(more.contains(n));
                    }
                }
                if more.contains(n) {
                    let i = choose|i: int| 0 <= i < more.len() && more[i] == n;
                    assert(all[i] == n);
                }
                assert(more.contains(name));
                assert(all[more.len() as int] == last);
            }
            all
        }
    }
}

proof fn lemma_some_names(names: Set<Seq<char>>) -> (list: Seq<Seq<char>>)
    requires
        names.finite(),
    ensures
        ascending_texts(list),
        forall|n: Seq<char>| list.contains(n) <==> names.contains(n),
    decreases names.len(),
{
    if names.len() == 0 {
        let list = Seq::<Seq<char>>::empty();
        assert(names =~= Set::empty());
        list
    } else {
        let name = names.choose();
        let list = lemma_some_names(names.remove(name));
        assert(!list.contains(name));
        lemma_text_added(list, name)
    }
}

/// The names of a finite set can be listed in ascending order.
pub proof fn lemma_sorted_names_members(names: Set<Seq<char>>)
    requires
        names.finite(),
    ensures
        ascending_texts(sorted_names(names)),
        forall|n: Seq<char>| #[trigger] sorted_names(names).contains(n) <==> names.contains(n),
{
    let list = lemma_some_names(names);
    assert(ascending_texts(list) && (forall|n: Seq<char>|
        list.contains(n) <==> names.contains(n)));
    let other = sorted_names(names);
    assert(ascending_texts(other) && (forall|n: Seq<char>|
        other.contains(n) <==> names.contains(n)));
}

} // verus!
