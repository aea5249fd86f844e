//! The arguments that a page, a layout or a component is declared with:
//! its meta tags and the packages it needs.

use crate::text::{append_chars, from_chars, same_chars, texts, to_chars};
use vstd::prelude::*;

verus! {

/// The value that an argument is given.
pub enum ArgumentValue {
    /// A text: `title = "Hello"`.
    Text(String),
    /// A list of texts: `keywords = ["a", "b"]`.
    List(Vec<String>),
    /// A list of names with their contents:
    /// `other_meta = ["name" = "content"]`.
    Pairs(Vec<(String, String)>),
}

/// Why an argument was refused.
#[derive(Debug, Clone, Copy, PartialEq, Eq, Structural)]
pub enum ArgumentError {
    /// No argument has this name.
    UnexpectedName,
    /// The argument has another kind of value.
    UnexpectedValue,
}

/// The arguments expected in attribute
#[derive(Debug)]
pub struct ProcMacroParameters {
    /// Title of the webpage: `<title>`, `og:title`
    pub title: Option<String>,
    /// Meta Description: `description`, `og:description`
    pub description: Option<String>,
    /// Meta keywords of this website: `keywords`
    pub keywords: Option<Vec<String>>,
    /// Meta robots: `robots`
    pub robots: Option<String>,
    /// Meta author: `author`
    pub author: Option<String>,
    /// Meta author: `og:site_name`
    pub site_name: Option<String>,
    /// Meta author: `language`
    pub lang: Option<String>,
    /// Meta author: `og:image`
    pub img: Option<String>,
    /// Other meta tags, in the order in which they were given
    pub other_meta: Option<Vec<(String, String)>>,
    /// Add JS packages
    pub js_pkgs: Option<Vec<String>>,
}

/// Pairs of texts as plain values.
pub open spec fn pairs_of(pairs: Seq<(String, String)>) -> Seq<(Seq<char>, Seq<char>)> {
    Seq::new(pairs.len(), |i: int| (pairs[i].0@, pairs[i].1@))
}

/// An optional text as plain values.
pub open spec fn text_view(text: Option<String>) -> Option<Seq<char>> {
    match text {
        Some(t) => Some(t@),
        None => None,
    }
}

/// An optional list of texts as plain values.
pub open spec fn list_view(list: Option<Vec<String>>) -> Option<Seq<Seq<char>>> {
    match list {
        Some(l) => Some(texts(l@)),
        None => None,
    }
}

/// An optional list of pairs as plain values.
pub open spec fn pairs_view(pairs: Option<Vec<(String, String)>>) -> Option<
    Seq<(Seq<char>, Seq<char>)>,
> {
    match pairs {
        Some(p) => Some(pairs_of(p@)),
        None => None,
    }
}

/// The arguments as plain values.
pub struct Parameters {
    pub title: Option<Seq<char>>,
    pub description: Option<Seq<char>>,
    pub keywords: Option<Seq<Seq<char>>>,
    pub robots: Option<Seq<char>>,
    pub author: Option<Seq<char>>,
    pub site_name: Option<Seq<char>>,
    pub lang: Option<Seq<char>>,
    pub img: Option<Seq<char>>,
    pub other_meta: Option<Seq<(Seq<char>, Seq<char>)>>,
    pub js_pkgs: Option<Seq<Seq<char>>>,
}

impl View for ProcMacroParameters {
    type V = Parameters;

    open spec fn view(&self) -> Parameters {
        Parameters {
            title: text_view(self.title),
            description: text_view(self.description),
            keywords: list_view(self.keywords),
            robots: text_view(self.robots),
            author: text_view(self.author),
            site_name: text_view(self.site_name),
            lang: text_view(self.lang),
            img: text_view(self.img),
            other_meta: pairs_view(self.other_meta),
            js_pkgs: list_view(self.js_pkgs),
        }
    }
}

/// A value as plain values.
pub enum Value {
    Text(Seq<char>),
    List(Seq<Seq<char>>),
    Pairs(Seq<(Seq<char>, Seq<char>)>),
}

impl View for ArgumentValue {
    type V = Value;

    open spec fn view(&self) -> Value {
        match self {
            ArgumentValue::Text(t) => Value::Text(t@),
            ArgumentValue::List(l) => Value::List(texts(l@)),
            ArgumentValue::Pairs(p) => Value::Pairs(pairs_of(p@)),
        }
    }
}

/// What the arguments are once `name` is given `value`, or why that is
/// refused. A text argument takes a text, `keywords` and `js_pkgs` take a
/// list, and each replaces what was given before; `other_meta` takes pairs
/// and adds them to those given before.
pub open spec fn given(before: Parameters, name: Seq<char>, value: Value) -> Result<
    Parameters,
    ArgumentError,
> {
    if name == "other_meta"@ {
        match value {
            Value::Pairs(pairs) => Ok(
                Parameters {
                    other_meta: if pairs.len() == 0 {
                        before.other_meta
                    } else {
                        Some(
                            match before.other_meta {
                                Some(had) => had + pairs,
                                None => pairs,
                            },
                        )
                    },
                    ..before
                },
            ),
            _ => Err(ArgumentError::UnexpectedValue),
        }
    } else if name == "keywords"@ {
        match value {
            Value::List(list) => Ok(Parameters { keywords: Some(list), ..before }),
            _ => Err(ArgumentError::UnexpectedValue),
        }
    } else if name == "js_pkgs"@ {
        match value {
            Value::List(list) => Ok(Parameters { js_pkgs: Some(list), ..before }),
            _ => Err(ArgumentError::UnexpectedValue),
        }
    } else if name == "description"@ || name == "author"@ || name == "site_name"@ || name
        == "lang"@ || name == "img"@ || name == "title"@ || name == "robots"@ {
        match value {
            Value::Text(text) => Ok(
                if name == "description"@ {
                    Parameters { description: Some(text), ..before }
                } else if name == "author"@ {
                    Parameters { author: Some(text), ..before }
                } else if name == "site_name"@ {
                    Parameters { site_name: Some(text), ..before }
                } else if name == "lang"@ {
                    Parameters { lang: Some(text), ..before }
                } else if name == "img"@ {
                    Parameters { img: Some(text), ..before }
                } else if name == "title"@ {
                    Parameters { title: Some(text), ..before }
                } else {
                    Parameters { robots: Some(text), ..before }
                },
            ),
            _ => Err(ArgumentError::UnexpectedValue),
        }
    } else {
        Err(ArgumentError::UnexpectedName)
    }
}

/// The texts of `parts` with `glue` between neighbours.
pub open spec fn glued(parts: Seq<Seq<char>>, glue: Seq<char>) -> Seq<char>
    decreases parts.len(),
{
    if parts.len() == 0 {
        Seq::empty()
    } else if parts.len() == 1 {
        parts[0]
    } else {
        glued(parts.drop_last(), glue) + glue + parts.last()
    }
}

/// The tag `name` with the content `text`, if there is one.
pub open spec fn tag(name: Seq<char>, text: Option<Seq<char>>) -> Seq<(Seq<char>, Seq<char>)> {
    match text {
        Some(t) => seq![(name, t)],
        None => Seq::empty(),
    }
}

/// The meta tags that the arguments ask for, in the order in which they
/// are set: title, description, robots, author, site name, language and
/// image, then the keywords joined by a comma and a space, then the other
/// tags.
pub open spec fn tags_of(parameters: Parameters) -> Seq<(Seq<char>, Seq<char>)> {
    tag("title"@, parameters.title) + tag("description"@, parameters.description) + tag(
        "robots"@,
        parameters.robots,
    ) + tag("author"@, parameters.author) + tag("site_name"@, parameters.site_name) + tag(
        "lang"@,
        parameters.lang,
    ) + tag("img"@, parameters.img) + tag(
        "keywords"@,
        match parameters.keywords {
            Some(list) => Some(glued(list, ", "@)),
            None => None,
        },
    ) + match parameters.other_meta {
        Some(pairs) => pairs,
        None => Seq::empty(),
    }
}

fn is_name(name: &Vec<char>, word: &str) -> (yes: bool)
    ensures
        yes == (name@ == word@),
{
    same_chars(name, &to_chars(word))
}

fn add_tag(tags: &mut Vec<(String, String)>, name: &str, text: &Option<String>)
    ensures
        pairs_of(final(tags)@) == pairs_of(old(tags)@) + tag(name@, text_view(*text)),
{
    let ghost before = pairs_of(tags@);
    match text {
        Some(t) => {
            tags.push((name.to_owned(), t.clone()));
            assert(pairs_of(tags@) == before + seq![(name@, t@)]);
        },
        None => {
            assert(before + Seq::<(Seq<char>, Seq<char>)>::empty() == before);
        },
    }
}

/// Joins `parts` with `glue` between neighbours.
pub fn join_with(parts: &Vec<String>, glue: &str) -> (out: String)
    ensures
        out@ == glued(texts(parts@), glue@),
{
    let between = to_chars(glue);
    let ghost all = texts(parts@);
    let mut out: Vec<char> = Vec::new();
    let mut i: usize = 0;
    assert(all.take(0) == Seq::<Seq<char>>::empty());
    while i < parts.len()
        invariant
            i <= parts.len(),
            all == texts(parts@),
            between@ == glue@,
            out@ == glued(all.take(i as int), glue@),
        decreases parts.len() - i,
    {
        assert(all.take(i + 1).drop_last() == all.take(i as int));
        assert(all.take(i + 1).last() == all[i as int]);
        if i > 0 {
            append_chars(&mut out, &between);
        }
        append_chars(&mut out, &to_chars(parts[i].as_str()));
        i += 1;
    }
    assert(all.take(parts@.len() as int) == all);
    from_chars(&out)
}

impl ProcMacroParameters {
    /// No argument given.
    pub fn new() -> (parameters: ProcMacroParameters)
        ensures
            parameters@ == (Parameters {
                title: None,
                description: None,
                keywords: None,
                robots: None,
                author: None,
                site_name: None,
                lang: None,
                img: None,
                other_meta: None,
                js_pkgs: None,
            }),
    {
        ProcMacroParameters {
            title: None,
            description: None,
            keywords: None,
            robots: None,
            author: None,
            site_name: None,
            lang: None,
            img: None,
            other_meta: None,
            js_pkgs: None,
        }
    }

    /// Takes the argument `name` with its value. An argument that is
    /// refused changes nothing.
    pub fn parse(&mut self, name: &str, value: ArgumentValue) -> (out: Result<(), ArgumentError>)
        ensures
            match out {
                Ok(()) => given(old(self)@, name@, value@) == Ok::<Parameters, ArgumentError>(
                    final(self)@,
                ),
                Err(error) => given(old(self)@, name@, value@) == Err::<Parameters, ArgumentError>(
                    error,
                ) && final(self)@ == old(self)@,
            },
    {
        let word = to_chars(name);
        if is_name(&word, "other_meta") {
            match value {
                ArgumentValue::Pairs(pairs) => {
                    if pairs.len() > 0 {
                        let mut all: Vec<(String, String)> = match self.other_meta.take() {
                            Some(had) => had,
                            None => Vec::new(),
                        };
                        let ghost start = pairs_of(all@);
                        assert(old(self)@.other_meta is None ==> start == Seq::<
                            (Seq<char>, Seq<char>),
                        >::empty());
                        let mut i: usize = 0;
                        assert(start + pairs_of(pairs@).take(0) == start);
                        while i < pairs.len()
                            invariant
                                i <= pairs.len(),
                                pairs_of(all@) == start + pairs_of(pairs@).take(i as int),
                            decreases pairs.len() - i,
                        {
                            let ghost had = pairs_of(all@);
                            all.push((pairs[i].0.clone(), pairs[i].1.clone()));
                            assert(pairs_of(all@) == had.push(pairs_of(pairs@)[i as int]));
                            assert(pairs_of(pairs@).take(i + 1) == pairs_of(pairs@).take(
                                i as int,
                            ).push(pairs_of(pairs@)[i as int]));
                            i += 1;
                        }
                        assert(pairs_of(pairs@).take(pairs@.len() as int) == pairs_of(pairs@));
                        assert(start + pairs_of(pairs@) == pairs_of(pairs@) || old(
                            self,
                        )@.other_meta is Some) by {
                            if old(self)@.other_meta is None {
                                assert(start + pairs_of(pairs@) == pairs_of(pairs@));
                            }
                        }
                        self.other_meta = Some(all);
                    }
                    Ok(())
                },
                _ => Err(ArgumentError::UnexpectedValue),
            }
        } else if is_name(&word, "keywords") {
            match value {
                ArgumentValue::List(list) => {
                    self.keywords = Some(list);
                    Ok(())
                },
                _ => Err(ArgumentError::UnexpectedValue),
            }
        } else if is_name(&word, "js_pkgs") {
            match value {
                ArgumentValue::List(list) => {
                    self.js_pkgs = Some(list);
                    Ok(())
                },
                _ => Err(ArgumentError::UnexpectedValue),
            }
        } else if is_name(&word, "description") || is_name(&word, "author") || is_name(
            &word,
            "site_name",
        ) || is_name(&word, "lang") || is_name(&word, "img") || is_name(&word, "title") || is_name(
            &word,
            "robots",
        ) {
            match value {
                ArgumentValue::Text(text) => {
                    if is_name(&word, "description") {
                        self.description = Some(text);
                    } else if is_name(&word, "author") {
                        self.author = Some(text);
                    } else if is_name(&word, "site_name") {
                        self.site_name = Some(text);
                    } else if is_name(&word, "lang") {
                        self.lang = Some(text);
                    } else if is_name(&word, "img") {
                        self.img = Some(text);
                    } else if is_name(&word, "title") {
                        self.title = Some(text);
                    } else {
                        self.robots = Some(text);
                    }
                    Ok(())
                },
                _ => Err(ArgumentError::UnexpectedValue),
            }
        } else {
            Err(ArgumentError::UnexpectedName)
        }
    }

    /// The meta tags that the arguments ask for: names with their
    /// contents, in the order in which they are to be set.
    pub fn meta_tags(&self) -> (tags: Vec<(String, String)>)
        ensures
            pairs_of(tags@) == tags_of(self@),
    {
        let mut tags: Vec<(String, String)> = Vec::new();
        assert(pairs_of(tags@) == Seq::<(Seq<char>, Seq<char>)>::empty());
        add_tag(&mut tags, "title", &self.title);
        add_tag(&mut tags, "description", &self.description);
        add_tag(&mut tags, "robots", &self.robots);
        add_tag(&mut tags, "author", &self.author);
        add_tag(&mut tags, "site_name", &self.site_name);
        add_tag(&mut tags, "lang", &self.lang);
        add_tag(&mut tags, "img", &self.img);
        let keywords = match &self.keywords {
            Some(list) => Some(join_with(list, ", ")),
            None => None,
        };
        add_tag(&mut tags, "keywords", &keywords);
        let ghost head = pairs_of(tags@);
        match &self.other_meta {
            Some(pairs) => {
                let mut i: usize = 0;
                assert(head + pairs_of(pairs@).take(0) == head);
                while i < pairs.len()
                    invariant
                        i <= pairs.len(),
                        pairs_of(tags@) == head + pairs_of(pairs@).take(i as int),
                    decreases pairs.len() - i,
                {
                    let ghost had = pairs_of(tags@);
                    tags.push((pairs[i].0.clone(), pairs[i].1.clone()));
                    assert(pairs_of(tags@) == had.push(pairs_of(pairs@)[i as int]));
                    assert(pairs_of(pairs@).take(i + 1) == pairs_of(pairs@).take(i as int).push(
                        pairs_of(pairs@)[i as int],
                    ));
                    i += 1;
                }
                assert(pairs_of(pairs@).take(pairs@.len() as int) == pairs_of(pairs@));
            },
            None => {
                assert(head + Seq::<(Seq<char>, Seq<char>)>::empty() == head);
            },
        }
        tags
    }
}

} // verus!
