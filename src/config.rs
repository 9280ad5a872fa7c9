use vstd::prelude::*;

verus! {

/// Configuration of the upper-layer protocol that uses a Wormhole channel:
/// a stable URI-like application id shared by both peers, and the address of
/// the rendezvous server.
#[derive(Debug)]
pub struct AppConfig {
    id: String,
    rendezvous_url: String,
}

impl AppConfig {
    pub closed spec fn spec_id(&self) -> Seq<char> {
        self.id@
    }

    pub closed spec fn spec_rendezvous_url(&self) -> Seq<char> {
        self.rendezvous_url@
    }

    pub fn new(id: String, rendezvous_url: String) -> (r: Self)
        ensures
            r.spec_id() == id@,
            r.spec_rendezvous_url() == rendezvous_url@,
    {
        AppConfig { id, rendezvous_url }
    }

    pub fn id(&self) -> (r: String)
        ensures
            r@ == self.spec_id(),
    {
        self.id.clone()
    }

    pub fn set_id(&mut self, id: String)
        ensures
            final(self).spec_id() == id@,
            final(self).spec_rendezvous_url() == old(self).spec_rendezvous_url(),
    {
        self.id = id;
    }

    pub fn rendezvous_url(&self) -> (r: String)
        ensures
            r@ == self.spec_rendezvous_url(),
    {
        self.rendezvous_url.clone()
    }

    pub fn set_rendezvous_url(&mut self, rendezvous_url: String)
        ensures
            final(self).spec_rendezvous_url() == rendezvous_url@,
            final(self).spec_id() == old(self).spec_id(),
    {
        self.rendezvous_url = rendezvous_url;
    }
}

} // verus!
