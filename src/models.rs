//! Entries of the model listing.
use vstd::prelude::*;

verus! {

/// One model of the listing: a real model of the server, or a temporary
/// entry that stands for a model still being pulled.
#[derive(Clone, Debug, PartialEq, Eq)]
pub struct ModelInfo {
    pub name: String,
    pub size: u64,
    pub modified_at: String,
    pub temporary: bool,
}

/// An entry as the contracts see it: name, size, timestamp, temporary.
pub type ModelView = (Seq<char>, u64, Seq<char>, bool);

impl View for ModelInfo {
    type V = ModelView;

    open spec fn view(&self) -> ModelView {
        (self.name@, self.size, self.modified_at@, self.temporary)
    }
}

/// The views of a sequence of entries, in order.
pub open spec fn models_view(v: Seq<ModelInfo>) -> Seq<ModelView> {
    v.map_values(|m: ModelInfo| m@)
}

/// The timestamp of an entry that is not on the server yet.
pub open spec fn not_available() -> Seq<char> {
    seq!['N', '/', 'A']
}

/// The temporary entry for a model that is being pulled.
pub open spec fn pending_entry(name: Seq<char>) -> ModelView {
    (name, 0, not_available(), true)
}

impl ModelInfo {
    /// A model that the server reports.
    pub fn on_server(name: String, size: u64, modified_at: String) -> (r: ModelInfo)
        ensures
            r@ == (name@, size, modified_at@, false),
    {
        ModelInfo { name, size, modified_at, temporary: false }
    }

    /// The temporary entry for a model that is being pulled.
    pub fn pending(name: &String) -> (r: ModelInfo)
        ensures
            r@ == pending_entry(name@),
    {
        let stamp = String::from_str("N/A");
        proof {
            reveal_strlit("N/A");
        }
        assert(stamp@ =~= not_available());
        ModelInfo { name: name.clone(), size: 0, modified_at: stamp, temporary: true }
    }

    /// A copy that shares nothing with `self`.
    pub fn duplicate(&self) -> (r: ModelInfo)
        ensures
            r@ == self@,
    {
        ModelInfo {
            name: self.name.clone(),
            size: self.size,
            modified_at: self.modified_at.clone(),
            temporary: self.temporary,
        }
    }
}

} // verus!
