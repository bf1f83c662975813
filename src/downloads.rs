//! The download coordinator: which models are being pulled, with at most one
//! pull in flight for each normalized model name.
use vstd::prelude::*;
use crate::models::{ModelInfo, ModelView, models_view, pending_entry};

verus! {

/// The tag that a model name without one is given.
pub open spec fn default_tag() -> Seq<char> {
    seq![':', 'l', 'a', 't', 'e', 's', 't']
}

/// A name that cannot identify a model: empty, or with an empty base or an
/// empty tag around its separator.
pub open spec fn is_malformed(name: Seq<char>) -> bool {
    name.len() == 0 || name[0] == ':' || name.last() == ':'
}

/// The canonical key of a model: the name itself where it carries a tag,
/// else the name with the default tag.
pub open spec fn normalized(name: Seq<char>) -> Seq<char> {
    if name.contains(':') {
        name
    } else {
        name + default_tag()
    }
}

/// Whether a pull of `name` is accepted while `pending` are being pulled.
pub open spec fn admits(pending: Seq<Seq<char>>, name: Seq<char>) -> bool {
    !is_malformed(name) && !pending.contains(normalized(name))
}

/// The models being pulled after a request to pull `name`.
pub open spec fn after_begin(pending: Seq<Seq<char>>, name: Seq<char>) -> Seq<Seq<char>> {
    if admits(pending, name) {
        pending.push(normalized(name))
    } else {
        pending
    }
}

/// `pending` without `key`, the others kept in order.
pub open spec fn without(pending: Seq<Seq<char>>, key: Seq<char>) -> Seq<Seq<char>>
    decreases pending.len(),
{
    if pending.len() == 0 {
        pending
    } else {
        let rest = without(pending.drop_last(), key);
        if pending.last() == key {
            rest
        } else {
            rest.push(pending.last())
        }
    }
}

/// The temporary entries for the models being pulled, in order.
pub open spec fn pending_view(pending: Seq<Seq<char>>) -> Seq<ModelView> {
    pending.map_values(|n: Seq<char>| pending_entry(n))
}

/// The listing: the server's models, then one temporary entry per pull.
pub open spec fn listing(pending: Seq<Seq<char>>, server: Seq<ModelView>) -> Seq<ModelView> {
    server + pending_view(pending)
}

/// Why a pull was not admitted.
#[derive(Clone, Debug, PartialEq, Eq)]
pub enum DownloadError {
    /// The name cannot identify a model.
    MalformedModelName,
    /// A pull of this normalized name is already in flight.
    AlreadyInFlight(String),
}

/// Whether `name` holds the tag separator.
fn has_tag(name: &str) -> (r: bool)
    ensures
        r == name@.contains(':'),
{
    let n = name.unicode_len();
    let mut i: usize = 0;
    while i < n
        invariant
            n == name@.len(),
            i <= n,
            forall|j: int| 0 <= j < i ==> name@[j] != ':',
        decreases n - i,
    {
        if name.get_char(i) == ':' {
            return true;
        }
        i = i + 1;
    }
    false
}

/// Whether `name` cannot identify a model.
pub fn is_malformed_name(name: &str) -> (r: bool)
    ensures
        r == is_malformed(name@),
{
    let n = name.unicode_len();
    n == 0 || name.get_char(0) == ':' || name.get_char(n - 1) == ':'
}

/// The canonical key of a model name.
pub fn normalize(name: &str) -> (r: String)
    ensures
        r@ == normalized(name@),
{
    if has_tag(name) {
        String::from_str(name)
    } else {
        let r = String::from_str(name).concat(":latest");
        proof {
            reveal_strlit(":latest");
        }
        assert(r@ =~= normalized(name@));
        r
    }
}

/// The set of models being pulled, each normalized name at most once, in the
/// order in which their pulls were admitted.
pub struct DownloadSet {
    names: Vec<String>,
}

impl View for DownloadSet {
    type V = Seq<Seq<char>>;

    closed spec fn view(&self) -> Seq<Seq<char>> {
        self.names@.map_values(|s: String| s@)
    }
}

impl DownloadSet {
    /// Each normalized name is held at most once.
    pub closed spec fn wf(&self) -> bool {
        self@.no_duplicates()
    }

    /// No pull in flight.
    pub fn new() -> (r: DownloadSet)
        ensures
            r.wf(),
            r@ == Seq::<Seq<char>>::empty(),
    {
        let r = DownloadSet { names: Vec::new() };
        assert(r@ =~= Seq::<Seq<char>>::empty());
        r
    }

    fn holds(&self, key: &String) -> (r: bool)
        ensures
            r == self@.contains(key@),
    {
        let mut i: usize = 0;
        while i < self.names.len()
            invariant
                i <= self.names@.len(),
                forall|j: int| 0 <= j < i ==> self@[j] != key@,
            decreases self.names.len() - i,
        {
            if self.names[i] == *key {
                assert(self@[i as int] == key@);
                return true;
            }
            i = i + 1;
        }
        false
    }

    /// Whether a pull of `name` is in flight.
    pub fn is_pending(&self, name: &str) -> (r: bool)
        ensures
            r == self@.contains(normalized(name@)),
    {
        let key = normalize(name);
        self.holds(&key)
    }

    /// Admits a pull of `name`, unless its normalized name is already being
    /// pulled or it cannot identify a model; a refused request changes
    /// nothing. On success the normalized name is handed back.
    pub fn begin(&mut self, name: &str) -> (r: Result<String, DownloadError>)
        requires
            old(self).wf(),
        ensures
            final(self).wf(),
            final(self)@ == after_begin(old(self)@, name@),
            r is Ok <==> admits(old(self)@, name@),
            match r {
                Ok(key) => key@ == normalized(name@),
                Err(DownloadError::MalformedModelName) => is_malformed(name@),
                Err(DownloadError::AlreadyInFlight(key)) => !is_malformed(name@) && key@
                    == normalized(name@) && old(self)@.contains(normalized(name@)),
            },
    {
        if is_malformed_name(name) {
            return Err(DownloadError::MalformedModelName);
        }
        let key = normalize(name);
        if self.holds(&key) {
            return Err(DownloadError::AlreadyInFlight(key));
        }
        let ghost before = self@;
        self.names.push(key.clone());
        assert(self@ =~= before.push(key@));
        Ok(key)
    }

    /// Ends the pull of `name`: its normalized name leaves the set, the
    /// others stay in order.
    pub fn end(&mut self, name: &str)
        requires
            old(self).wf(),
            old(self)@.contains(normalized(name@)),
        ensures
            final(self).wf(),
            final(self)@ == without(old(self)@, normalized(name@)),
            !final(self)@.contains(normalized(name@)),
            final(self)@.len() + 1 == old(self)@.len(),
    {
        let key = normalize(name);
        let ghost all = self@;
        let mut kept: Vec<String> = Vec::new();
        let mut i: usize = 0;
        while i < self.names.len()
            invariant
                i <= self.names@.len(),
                all == self@,
                kept@.map_values(|s: String| s@) == without(all.subrange(0, i as int), key@),
            decreases self.names.len() - i,
        {
            let is_key = self.names[i] == key;
            if !is_key {
                kept.push(self.names[i].clone());
            }
            proof {
                let part = all.subrange(0, i + 1);
                assert(part.drop_last() =~= all.subrange(0, i as int));
                assert(part.last() == all[i as int]);
                assert(kept@.map_values(|s: String| s@) =~= without(part, key@));
            }
            i = i + 1;
        }
        proof {
            assert(all.subrange(0, all.len() as int) =~= all);
            lemma_without(all, key@);
            lemma_without_len(all, key@);
        }
        self.names = kept;
    }

    /// The pulls in flight, as temporary listing entries.
    pub fn pending_as_models(&self) -> (r: Vec<ModelInfo>)
        ensures
            models_view(r@) == pending_view(self@),
    {
        let mut r: Vec<ModelInfo> = Vec::new();
        let mut i: usize = 0;
        while i < self.names.len()
            invariant
                i <= self.names@.len(),
                r@.len() == i,
                forall|j: int| 0 <= j < i ==> #[trigger] r@[j]@ == pending_entry(self@[j]),
            decreases self.names.len() - i,
        {
            r.push(ModelInfo::pending(&self.names[i]));
            i = i + 1;
        }
        assert(models_view(r@) =~= pending_view(self@));
        r
    }

    /// The server's models followed by the pulls in flight; a model that has
    /// just finished may stand in both parts.
    pub fn merge(&self, server: Vec<ModelInfo>) -> (r: Vec<ModelInfo>)
        ensures
            models_view(r@) == listing(self@, models_view(server@)),
    {
        let mut r = server;
        let mut pending = self.pending_as_models();
        let ghost a = r@;
        let ghost b = pending@;
        r.append(&mut pending);
        assert(models_view(r@) =~= models_view(a) + models_view(b));
        r
    }
}

/// How many of the requests `names`, taken one after another from `pending`,
/// are admitted.
pub open spec fn admitted_count(pending: Seq<Seq<char>>, names: Seq<Seq<char>>) -> nat
    decreases names.len(),
{
    if names.len() == 0 {
        0
    } else {
        (if admits(pending, names[0]) {
            1nat
        } else {
            0nat
        }) + admitted_count(after_begin(pending, names[0]), names.drop_first())
    }
}

/// Requests that all come down to `key`, once `key` is in flight: none is
/// admitted, and the set stays as it is.
proof fn lemma_all_refused(pending: Seq<Seq<char>>, names: Seq<Seq<char>>, key: Seq<char>)
    requires
        pending.contains(key),
        forall|i: int| 0 <= i < names.len() ==> normalized(#[trigger] names[i]) == key,
    ensures
        admitted_count(pending, names) == 0,
    decreases names.len(),
{
    if names.len() > 0 {
        assert(normalized(names[0]) == key);
        let rest = names.drop_first();
        assert forall|i: int| 0 <= i < rest.len() implies normalized(#[trigger] rest[i]) == key by {
            assert(rest[i] == names[i + 1]);
        }
        lemma_all_refused(pending, rest, key);
    }
}

/// Single flight: of any number of requests whose names normalize to the same
/// key, however they interleave, exactly one is admitted when the key is not
/// in flight, and none when it is; every other one fails as already in flight.
pub proof fn lemma_single_flight(pending: Seq<Seq<char>>, names: Seq<Seq<char>>, key: Seq<char>)
    requires
        names.len() > 0,
        forall|i: int| 0 <= i < names.len() ==> !is_malformed(#[trigger] names[i]),
        forall|i: int| 0 <= i < names.len() ==> normalized(#[trigger] names[i]) == key,
    ensures
        admitted_count(pending, names) == (if pending.contains(key) {
            0nat
        } else {
            1nat
        }),
{
    assert(normalized(names[0]) == key && !is_malformed(names[0]));
    let rest = names.drop_first();
    assert forall|i: int| 0 <= i < rest.len() implies normalized(#[trigger] rest[i]) == key by {
        assert(rest[i] == names[i + 1]);
    }
    if pending.contains(key) {
        lemma_all_refused(pending, names, key);
    } else {
        let next = pending.push(key);
        assert(next[pending.len() as int] == key);
        lemma_all_refused(next, rest, key);
    }
}

/// Once an admitted pull ends, the set is as it was before it began: the
/// name is admitted again, and no temporary entry stands for it.
pub proof fn lemma_end_readmits(pending: Seq<Seq<char>>, name: Seq<char>)
    requires
        pending.no_duplicates(),
        admits(pending, name),
    ensures
        without(after_begin(pending, name), normalized(name)) == pending,
        admits(without(after_begin(pending, name), normalized(name)), name),
        !pending_view(without(after_begin(pending, name), normalized(name))).contains(
            pending_entry(normalized(name)),
        ),
{
    let key = normalized(name);
    let s = pending.push(key);
    assert(s.drop_last() =~= pending);
    lemma_without(pending, key);
    if pending_view(pending).contains(pending_entry(key)) {
        let j = choose|j: int|
            0 <= j < pending_view(pending).len() && pending_view(pending)[j] == pending_entry(key);
        assert(pending[j] == key);
    }
}

/// Two listings taken with the same pulls in flight and the same models on
/// the server are identical.
pub proof fn lemma_listing_repeatable(
    pending: Seq<Seq<char>>,
    server: Seq<ModelView>,
    first: Seq<ModelView>,
    second: Seq<ModelView>,
)
    requires
        first == listing(pending, server),
        second == listing(pending, server),
    ensures
        first == second,
{
}

/// What `without` keeps: every other name, each as often as before.
pub proof fn lemma_without(s: Seq<Seq<char>>, key: Seq<char>)
    ensures
        forall|x: Seq<char>| #[trigger] without(s, key).contains(x) <==> (s.contains(x) && x != key),
        s.no_duplicates() ==> without(s, key).no_duplicates(),
        !s.contains(key) ==> without(s, key) == s,
    decreases s.len(),
{
    if s.len() > 0 {
        let init = s.drop_last();
        lemma_without(init, key);
        assert(s == init.push(s.last()));
        let rest = without(init, key);
        let l = s.last();
        assert forall|x: Seq<char>| #[trigger] without(s, key).contains(x) <==> (s.contains(x)
            && x != key) by {
            if without(s, key).contains(x) {
                let k = choose|k: int| 0 <= k < without(s, key).len() && without(s, key)[k] == x;
                if k < rest.len() {
                    assert(rest[k] == x);
                    assert(rest.contains(x));
                    let j = choose|j: int| 0 <= j < init.len() && init[j] == x;
                    assert(s[j] == x);
                } else {
                    assert(x == l && l != key);
                    assert(s[s.len() - 1] == x);
                }
            }
            if s.contains(x) && x != key {
                let j = choose|j: int| 0 <= j < s.len() && s[j] == x;
                if j < init.len() {
                    assert(init[j] == x);
                    assert(rest.contains(x));
                    let k = choose|k: int| 0 <= k < rest.len() && rest[k] == x;
                    if l != key {
                        assert(rest.push(l)[k] == x);
                    }
                } else {
                    assert(x == l);
                    assert(rest.push(l)[rest.len() as int] == x);
                }
            }
        }
        if s.no_duplicates() {
            assert(!init.contains(s.last())) by {
                if init.contains(s.last()) {
                    let j = choose|j: int| 0 <= j < init.len() && init[j] == s.last();
                    assert(s[j] == s[s.len() - 1]);
                }
            }
            assert(init.no_duplicates()) by {
                assert forall|p: int, q: int|
                    0 <= p < init.len() && 0 <= q < init.len() && p != q implies init[p]
                    != init[q] by {
                    assert(s[p] == init[p] && s[q] == init[q]);
                }
            }
            assert(!rest.contains(l));
            if l != key {
                assert forall|p: int, q: int|
                    0 <= p < rest.push(l).len() && 0 <= q < rest.push(l).len() && p != q implies rest.push(
                    l)[p] != rest.push(l)[q] by {
                    if p == rest.len() {
                        assert(rest[q] == rest.push(l)[q]);
                    } else if q == rest.len() {
                        assert(rest[p] == rest.push(l)[p]);
                    }
                }
            }
        }
        if !s.contains(key) {
            assert(!init.contains(key)) by {
                if init.contains(key) {
                    let j = choose|j: int| 0 <= j < init.len() && init[j] == key;
                    assert(s[j] == key);
                }
            }
            assert(s.last() != key);
        }
    }
}

/// Taking out a name that is there once shortens the sequence by one.
pub proof fn lemma_without_len(s: Seq<Seq<char>>, key: Seq<char>)
    requires
        s.no_duplicates(),
        s.contains(key),
    ensures
        without(s, key).len() + 1 == s.len(),
    decreases s.len(),
{
    let init = s.drop_last();
    assert(s == init.push(s.last()));
    assert(init.no_duplicates()) by {
        assert forall|p: int, q: int|
            0 <= p < init.len() && 0 <= q < init.len() && p != q implies init[p] != init[q] by {
            assert(s[p] == init[p] && s[q] == init[q]);
        }
    }
    if s.last() == key {
        assert(!init.contains(key)) by {
            if init.contains(key) {
                let j = choose|j: int| 0 <= j < init.len() && init[j] == key;
                assert(s[j] == s[s.len() - 1]);
            }
        }
        lemma_without(init, key);
    } else {
        let j = choose|j: int| 0 <= j < s.len() && s[j] == key;
        assert(init[j] == key);
        lemma_without_len(init, key);
    }
}

} // verus!
