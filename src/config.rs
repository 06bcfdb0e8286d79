//! Author identity used for commits.
use crate::error::FluxError;
use crate::text::{copy_text, text_eq};
use vstd::prelude::*;

verus! {

/// The author's name and address, each possibly unset.
pub struct Config {
    pub user_name: Option<String>,
    pub user_email: Option<String>,
}

pub open spec fn user_name_key() -> Seq<char> {
    seq!['u', 's', 'e', 'r', '_', 'n', 'a', 'm', 'e']
}

pub open spec fn user_email_key() -> Seq<char> {
    seq!['u', 's', 'e', 'r', '_', 'e', 'm', 'a', 'i', 'l']
}

fn key_text(email: bool) -> (r: String)
    ensures
        r@ == if email { user_email_key() } else { user_name_key() },
{
    let v: Vec<u8> = if email {
        vec![117u8, 115, 101, 114, 95, 101, 109, 97, 105, 108]
    } else {
        vec![117u8, 115, 101, 114, 95, 110, 97, 109, 101]
    };
    let r = crate::text::ascii_text(v);
    proof {
        assert(r@ =~= if email { user_email_key() } else { user_name_key() });
    }
    r
}

impl Config {
    /// Neither field set.
    pub fn new() -> (r: Config)
        ensures
            r.user_name is None,
            r.user_email is None,
    {
        Config { user_name: None, user_email: None }
    }

    /// Sets `user_name` or `user_email`; other keys change nothing.
    pub fn set(&mut self, key: &str, value: String)
        ensures
            key@ == user_name_key() ==> final(self).user_name == Some(value) && final(self).user_email == old(self).user_email,
            key@ == user_email_key() ==> final(self).user_email == Some(value) && final(self).user_name == old(self).user_name,
            key@ != user_name_key() && key@ != user_email_key() ==> *final(self) == *old(self),
    {
        if text_eq(key, key_text(false).as_str()) {
            self.user_name = Some(value);
        } else if text_eq(key, key_text(true).as_str()) {
            self.user_email = Some(value);
        }
    }

    /// The name and address, when both are set.
    pub fn get(&self) -> (r: Result<(String, String), FluxError>)
        ensures
            match (self.user_name, self.user_email) {
                (Some(n), Some(e)) => r is Ok && r->Ok_0.0@ == n@ && r->Ok_0.1@ == e@,
                _ => r == Err::<(String, String), FluxError>(FluxError::ConfigIncomplete),
            },
    {
        match (&self.user_name, &self.user_email) {
            (Some(n), Some(e)) => Ok((copy_text(n.as_str()), copy_text(e.as_str()))),
            _ => Err(FluxError::ConfigIncomplete),
        }
    }
}

} // verus!
