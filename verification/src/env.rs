//! The kinds of environment a server runs in.

use crate::text::to_chars;
use vstd::prelude::*;

verus! {

/// The type of environment that the server is running on
#[derive(Debug, Clone, Copy, PartialEq, Eq, PartialOrd, Ord, Hash, Structural)]
pub enum EnvType {
    Prod,
    Staging,
    Dev,
    Local,
}

/// Whether `text` spells a word, each letter in either case: `lower` and
/// `upper` hold the word in small and in capital letters.
pub open spec fn spells(text: Seq<char>, lower: Seq<char>, upper: Seq<char>) -> bool {
    &&& text.len() == lower.len()
    &&& forall|i: int| 0 <= i < text.len() ==> text[i] == lower[i] || text[i] == upper[i]
}

/// Whether `text` spells the word.
fn spells_word(text: &Vec<char>, lower: &str, upper: &str) -> (yes: bool)
    requires
        lower@.len() == upper@.len(),
    ensures
        yes == spells(text@, lower@, upper@),
{
    let low = to_chars(lower);
    let up = to_chars(upper);
    if text.len() != low.len() {
        return false;
    }
    let mut i: usize = 0;
    while i < text.len()
        invariant
            i <= text.len(),
            text.len() == low.len(),
            low.len() == up.len(),
            low@ == lower@,
            up@ == upper@,
            forall|j: int| 0 <= j < i ==> text@[j] == low@[j] || text@[j] == up@[j],
        decreases text.len() - i,
    {
        if text[i] != low[i] && text[i] != up[i] {
            return false;
        }
        i += 1;
    }
    true
}

impl EnvType {
    /// The environment that `name` names, whatever the case of its letters:
    /// `prod`, `staging`, `dev` or `local`.
    pub open spec fn named(name: Seq<char>) -> Option<EnvType> {
        if spells(name, "prod"@, "PROD"@) {
            Some(EnvType::Prod)
        } else if spells(name, "staging"@, "STAGING"@) {
            Some(EnvType::Staging)
        } else if spells(name, "dev"@, "DEV"@) {
            Some(EnvType::Dev)
        } else if spells(name, "local"@, "LOCAL"@) {
            Some(EnvType::Local)
        } else {
            None
        }
    }

    /// Reads the name of an environment.
    pub fn from_str(name: &str) -> (env: Option<EnvType>)
        ensures
            env == EnvType::named(name@),
    {
        proof {
            reveal_strlit("prod");
            reveal_strlit("PROD");
            reveal_strlit("staging");
            reveal_strlit("STAGING");
            reveal_strlit("dev");
            reveal_strlit("DEV");
            reveal_strlit("local");
            reveal_strlit("LOCAL");
        }
        let chars = to_chars(name);
        if spells_word(&chars, "prod", "PROD") {
            Some(EnvType::Prod)
        } else if spells_word(&chars, "staging", "STAGING") {
            Some(EnvType::Staging)
        } else if spells_word(&chars, "dev", "DEV") {
            Some(EnvType::Dev)
        } else if spells_word(&chars, "local", "LOCAL") {
            Some(EnvType::Local)
        } else {
            None
        }
    }

    /// Every environment, in the order of their declaration.
    pub fn iter() -> (all: Vec<EnvType>)
        ensures
            all@ == seq![EnvType::Prod, EnvType::Staging, EnvType::Dev, EnvType::Local],
    {
        let mut all: Vec<EnvType> = Vec::new();
        all.push(EnvType::Prod);
        all.push(EnvType::Staging);
        all.push(EnvType::Dev);
        all.push(EnvType::Local);
        all
    }
}

} // verus!
