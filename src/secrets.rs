use vstd::prelude::*;

verus! {

/// The credentials the bot signs in with.
pub struct Secrets {
    discord_token: String,
}

impl Secrets {
    pub fn new(discord_token: String) -> (r: Self)
        ensures
            r.token_view() == discord_token@,
    {
        Secrets { discord_token }
    }

    pub closed spec fn token_view(&self) -> Seq<char> {
        self.discord_token@
    }

    pub fn discord_token(&self) -> (r: &str)
        ensures
            r@ == self.token_view(),
    {
        self.discord_token.as_str()
    }
}

} // verus!
