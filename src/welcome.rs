use vstd::prelude::*;

verus! {

/// What the rendezvous server hands back before the peer arrives: its
/// optional message of the day, and the code of the session.
#[derive(Debug)]
pub struct WormholeWelcome {
    welcome: Option<String>,
    code: String,
}

impl WormholeWelcome {
    pub closed spec fn spec_welcome(&self) -> Option<Seq<char>> {
        match self.welcome {
            Some(w) => Some(w@),
            None => None,
        }
    }

    pub closed spec fn spec_code(&self) -> Seq<char> {
        self.code@
    }

    pub fn new(welcome: Option<String>, code: String) -> (r: Self)
        ensures
            r.spec_welcome() == (match welcome {
                Some(w) => Some(w@),
                None => None::<Seq<char>>,
            }),
            r.spec_code() == code@,
    {
        WormholeWelcome { welcome, code }
    }

    /// The server's message, or the empty text where it sent none.
    pub fn welcome(&self) -> (r: String)
        ensures
            r@ == (match self.spec_welcome() {
                Some(w) => w,
                None => Seq::<char>::empty(),
            }),
    {
        match &self.welcome {
            Some(w) => w.clone(),
            None => String::new(),
        }
    }

    pub fn code(&self) -> (r: String)
        ensures
            r@ == self.spec_code(),
    {
        self.code.clone()
    }
}

} // verus!
