//! The categories of content for which a cache rule is configured.

use crate::text::same_chars;
use crate::text::to_chars;
use vstd::prelude::*;

verus! {

/// Different cache categories used in the application
#[derive(Debug, Clone, Copy, Hash, PartialEq, PartialOrd, Ord, Eq, Structural)]
pub enum CacheCategory {
    Html,
    Css,
    Javascript,
    Public,
    Function,
}

impl CacheCategory {
    /// The category that `name` names: `html`, `css`, `javascript`,
    /// `public` or `function`, in small letters.
    pub open spec fn named(name: Seq<char>) -> Option<CacheCategory> {
        if name == "html"@ {
            Some(CacheCategory::Html)
        } else if name == "css"@ {
            Some(CacheCategory::Css)
        } else if name == "javascript"@ {
            Some(CacheCategory::Javascript)
        } else if name == "public"@ {
            Some(CacheCategory::Public)
        } else if name == "function"@ {
            Some(CacheCategory::Function)
        } else {
            None
        }
    }

    /// Reads the name of a category.
    pub fn from_str(name: &str) -> (category: Option<CacheCategory>)
        ensures
            category == CacheCategory::named(name@),
    {
        let chars = to_chars(name);
        if same_chars(&chars, &to_chars("html")) {
            Some(CacheCategory::Html)
        } else if same_chars(&chars, &to_chars("css")) {
            Some(CacheCategory::Css)
        } else if same_chars(&chars, &to_chars("javascript")) {
            Some(CacheCategory::Javascript)
        } else if same_chars(&chars, &to_chars("public")) {
            Some(CacheCategory::Public)
        } else if same_chars(&chars, &to_chars("function")) {
            Some(CacheCategory::Function)
        } else {
            None
        }
    }

    /// Every category, in the order of their declaration.
    pub fn iter() -> (all: Vec<CacheCategory>)
        ensures
            all@ == seq![
                CacheCategory::Html,
                CacheCategory::Css,
                CacheCategory::Javascript,
                CacheCategory::Public,
                CacheCategory::Function,
            ],
    {
        let mut all: Vec<CacheCategory> = Vec::new();
        all.push(CacheCategory::Html);
        all.push(CacheCategory::Css);
        all.push(CacheCategory::Javascript);
        all.push(CacheCategory::Public);
        all.push(CacheCategory::Function);
        all
    }
}

} // verus!
