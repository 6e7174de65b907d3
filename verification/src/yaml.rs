//! YAML values, and reading them with `serde_yaml`.

use vstd::prelude::*;
use crate::text::{same, texts};

verus! {

/// The declaration of the outside type `serde_yaml::Value`.
#[verifier::external_type_specification]
#[verifier::external_body]
pub struct ExYamlValue(serde_yaml::Value);

/// A YAML value. What is no text carries its debug form.
pub enum Yaml {
    Text(String),
    List(Vec<Yaml>, String),
    Mapping(Vec<(Yaml, Yaml)>, String),
    Tagged(Box<Yaml>, String),
    Scalar(String),
}

/// What a [`Yaml`] holds.
pub ghost enum YamlTree {
    Text(Seq<char>),
    List(Seq<YamlTree>, Seq<char>),
    Mapping(Seq<(YamlTree, YamlTree)>, Seq<char>),
    Tagged(Box<YamlTree>, Seq<char>),
    Scalar(Seq<char>),
}

pub open spec fn yaml_tree(yaml: Yaml) -> YamlTree
    decreases yaml,
{
    match yaml {
        Yaml::Text(s) => YamlTree::Text(s@),
        Yaml::List(items, debug) => YamlTree::List(yaml_trees(items@), debug@),
        Yaml::Mapping(entries, debug) => YamlTree::Mapping(yaml_pairs(entries@), debug@),
        Yaml::Tagged(inner, debug) => YamlTree::Tagged(Box::new(yaml_tree(*inner)), debug@),
        Yaml::Scalar(debug) => YamlTree::Scalar(debug@),
    }
}

pub open spec fn yaml_trees(items: Seq<Yaml>) -> Seq<YamlTree>
    decreases items,
{
    Seq::new(
        items.len(),
        |i: int|
            if 0 <= i < items.len() {
                yaml_tree(items[i])
            } else {
                YamlTree::Scalar(Seq::empty())
            },
    )
}

pub open spec fn yaml_pairs(entries: Seq<(Yaml, Yaml)>) -> Seq<(YamlTree, YamlTree)>
    decreases entries,
{
    Seq::new(
        entries.len(),
        |i: int|
            if 0 <= i < entries.len() {
                (yaml_tree(entries[i].0), yaml_tree(entries[i].1))
            } else {
                (YamlTree::Scalar(Seq::empty()), YamlTree::Scalar(Seq::empty()))
            },
    )
}

impl View for Yaml {
    type V = YamlTree;

    open spec fn view(&self) -> YamlTree {
        yaml_tree(*self)
    }
}

/// The value without the tags before it.
pub open spec fn untagged(v: YamlTree) -> YamlTree
    decreases v,
{
    match v {
        YamlTree::Tagged(inner, _) => untagged(*inner),
        _ => v,
    }
}

pub open spec fn yaml_text(v: YamlTree) -> Option<Seq<char>> {
    match untagged(v) {
        YamlTree::Text(s) => Some(s),
        _ => None,
    }
}

pub open spec fn yaml_list(v: YamlTree) -> Option<Seq<YamlTree>> {
    match untagged(v) {
        YamlTree::List(items, _) => Some(items),
        _ => None,
    }
}

pub open spec fn yaml_map(v: YamlTree) -> Option<Seq<(YamlTree, YamlTree)>> {
    match untagged(v) {
        YamlTree::Mapping(entries, _) => Some(entries),
        _ => None,
    }
}

/// How the debug form shows a value that is no text.
pub open spec fn debug_form(v: YamlTree) -> Seq<char> {
    match v {
        YamlTree::Text(s) => s,
        YamlTree::List(_, debug) => debug,
        YamlTree::Mapping(_, debug) => debug,
        YamlTree::Tagged(_, debug) => debug,
        YamlTree::Scalar(debug) => debug,
    }
}

/// The value under a key that is a plain text.
pub open spec fn yaml_field(entries: Seq<(YamlTree, YamlTree)>, key: Seq<char>) -> Option<YamlTree>
    decreases entries.len(),
{
    if entries.len() == 0 {
        None
    } else if entries[0].0 == YamlTree::Text(key) {
        Some(entries[0].1)
    } else {
        yaml_field(entries.drop_first(), key)
    }
}

pub open spec fn text_field(entries: Seq<(YamlTree, YamlTree)>, key: Seq<char>) -> Option<
    Seq<char>,
> {
    match yaml_field(entries, key) {
        Some(v) => yaml_text(v),
        None => None,
    }
}

pub open spec fn list_field(entries: Seq<(YamlTree, YamlTree)>, key: Seq<char>) -> Option<
    Seq<YamlTree>,
> {
    match yaml_field(entries, key) {
        Some(v) => yaml_list(v),
        None => None,
    }
}

pub open spec fn map_field(entries: Seq<(YamlTree, YamlTree)>, key: Seq<char>) -> Option<
    Seq<(YamlTree, YamlTree)>,
> {
    match yaml_field(entries, key) {
        Some(v) => yaml_map(v),
        None => None,
    }
}

/// The texts among the items of a list.
pub open spec fn yaml_texts(items: Seq<YamlTree>) -> Seq<Seq<char>>
    decreases items.len(),
{
    if items.len() == 0 {
        Seq::empty()
    } else {
        let before = yaml_texts(items.drop_last());
        match yaml_text(items.last()) {
            Some(s) => before.push(s),
            None => before,
        }
    }
}

/// What a `serde_yaml::Value` holds.
pub uninterp spec fn yaml_content(value: serde_yaml::Value) -> YamlTree;

/// What `serde_yaml::from_str` makes of a text as a value: what it holds, or the message of
/// the error.
pub uninterp spec fn yaml_document(text: Seq<char>) -> Result<YamlTree, Seq<char>>;

/// `serde_yaml::from_str` for a value. Claimed: the outcome is a function of the text. Which value
/// a text writes is left unsaid: that takes the grammar of YAML.
#[verifier::external_body]
fn yaml_from_text(text: &str) -> (r: Result<serde_yaml::Value, String>)
    ensures
        match r {
            Ok(value) => yaml_document(text@) == Ok::<YamlTree, Seq<char>>(yaml_content(value)),
            Err(message) => yaml_document(text@) == Err::<YamlTree, Seq<char>>(message@),
        },
{
    serde_yaml::from_str::<serde_yaml::Value>(text).map_err(|e| e.to_string())
}

/// The variants of `serde_yaml::Value`, one for one, each that is no text with its debug form.
#[verifier::external_body]
fn yaml_of_value(value: serde_yaml::Value) -> (r: Yaml)
    ensures
        r@ == yaml_content(value),
{
    let debug = format!("{value:?}");
    match value {
        serde_yaml::Value::Null => Yaml::Scalar(debug),
        serde_yaml::Value::Bool(_) => Yaml::Scalar(debug),
        serde_yaml::Value::Number(_) => Yaml::Scalar(debug),
        serde_yaml::Value::String(s) => Yaml::Text(s),
        serde_yaml::Value::Sequence(v) => Yaml::List(
            v.into_iter().map(yaml_of_value).collect(), debug),
        serde_yaml::Value::Mapping(m) => Yaml::Mapping(
            m.into_iter().map(|(k, v)| (yaml_of_value(k), yaml_of_value(v))).collect(), debug),
        serde_yaml::Value::Tagged(t) => Yaml::Tagged(Box::new(yaml_of_value(t.value)), debug),
    }
}

/// The value that a text writes, or why it writes none.
pub fn parse_yaml(text: &str) -> (r: Result<Yaml, String>)
    ensures
        match r {
            Ok(yaml) => yaml_document(text@) == Ok::<YamlTree, Seq<char>>(yaml@),
            Err(message) => yaml_document(text@) == Err::<YamlTree, Seq<char>>(message@),
        },
{
    match yaml_from_text(text) {
        Ok(value) => Ok(yaml_of_value(value)),
        Err(message) => Err(message),
    }
}

impl Yaml {
    pub fn untag(&self) -> (r: &Yaml)
        ensures
            r@ == untagged(self@),
        decreases self,
    {
        proof {
            reveal_with_fuel(yaml_tree, 2);
        }
        match self {
            Yaml::Tagged(inner, _) => (**inner).untag(),
            _ => self,
        }
    }

    pub fn as_str(&self) -> (r: Option<&String>)
        ensures
            match r {
                Some(s) => yaml_text(self@) == Some(s@),
                None => yaml_text(self@) is None,
            },
    {
        match self.untag() {
            Yaml::Text(s) => Some(s),
            _ => None,
        }
    }

    pub fn as_list(&self) -> (r: Option<&Vec<Yaml>>)
        ensures
            match r {
                Some(items) => yaml_list(self@) == Some(yaml_trees(items@)),
                None => yaml_list(self@) is None,
            },
    {
        match self.untag() {
            Yaml::List(items, _) => Some(items),
            _ => None,
        }
    }

    pub fn as_map(&self) -> (r: Option<&Vec<(Yaml, Yaml)>>)
        ensures
            match r {
                Some(entries) => yaml_map(self@) == Some(yaml_pairs(entries@)),
                None => yaml_map(self@) is None,
            },
    {
        match self.untag() {
            Yaml::Mapping(entries, _) => Some(entries),
            _ => None,
        }
    }

    pub fn debug_text(&self) -> (r: String)
        ensures
            r@ == debug_form(self@),
    {
        match self {
            Yaml::Text(s) => s.clone(),
            Yaml::List(_, debug) => debug.clone(),
            Yaml::Mapping(_, debug) => debug.clone(),
            Yaml::Tagged(_, debug) => debug.clone(),
            Yaml::Scalar(debug) => debug.clone(),
        }
    }
}

pub fn find_field<'a>(entries: &'a Vec<(Yaml, Yaml)>, key: &str) -> (r: Option<&'a Yaml>)
    ensures
        match r {
            Some(v) => yaml_field(yaml_pairs(entries@), key@) == Some(v@),
            None => yaml_field(yaml_pairs(entries@), key@) is None,
        },
{
    let ghost ps = yaml_pairs(entries@);
    let mut i: usize = 0;
    assert(ps.skip(0) =~= ps);
    while i < entries.len()
        invariant
            i <= entries.len(),
            ps == yaml_pairs(entries@),
            yaml_field(ps, key@) == yaml_field(ps.skip(i as int), key@),
        decreases entries.len() - i,
    {
        assert(ps.skip(i as int)[0] == ps[i as int]);
        assert(ps[i as int] == (yaml_tree(entries@[i as int].0), yaml_tree(entries@[i as int].1)));
        assert(ps.skip(i as int).drop_first() =~= ps.skip(i + 1));
        let found = match &entries[i].0 {
            Yaml::Text(s) => same(s.as_str(), key),
            _ => false,
        };
        if found {
            return Some(&entries[i].1);
        }
        i = i + 1;
    }
    None
}

pub fn find_text(entries: &Vec<(Yaml, Yaml)>, key: &str) -> (r: Option<String>)
    ensures
        r.deep_view() == text_field(yaml_pairs(entries@), key@),
{
    match find_field(entries, key) {
        Some(v) => match v.as_str() {
            Some(s) => Some(s.clone()),
            None => None,
        },
        None => None,
    }
}

pub fn find_list<'a>(entries: &'a Vec<(Yaml, Yaml)>, key: &str) -> (r: Option<&'a Vec<Yaml>>)
    ensures
        match r {
            Some(items) => list_field(yaml_pairs(entries@), key@) == Some(yaml_trees(items@)),
            None => list_field(yaml_pairs(entries@), key@) is None,
        },
{
    match find_field(entries, key) {
        Some(v) => v.as_list(),
        None => None,
    }
}

pub fn find_map<'a>(entries: &'a Vec<(Yaml, Yaml)>, key: &str) -> (r: Option<&'a Vec<(Yaml, Yaml)>>)
    ensures
        match r {
            Some(inner) => map_field(yaml_pairs(entries@), key@) == Some(yaml_pairs(inner@)),
            None => map_field(yaml_pairs(entries@), key@) is None,
        },
{
    match find_field(entries, key) {
        Some(v) => v.as_map(),
        None => None,
    }
}

/// The texts among the items.
pub fn text_list(items: &Vec<Yaml>) -> (r: Vec<String>)
    ensures
        texts(r@) == yaml_texts(yaml_trees(items@)),
{
    let ghost trees = yaml_trees(items@);
    let mut r: Vec<String> = Vec::new();
    let mut i: usize = 0;
    assert(texts(r@) =~= yaml_texts(trees.take(0)));
    while i < items.len()
        invariant
            i <= items.len(),
            trees == yaml_trees(items@),
            texts(r@) == yaml_texts(trees.take(i as int)),
        decreases items.len() - i,
    {
        let ghost before = texts(r@);
        proof {
            assert(trees.take(i + 1).drop_last() =~= trees.take(i as int));
            assert(trees[i as int] == yaml_tree(items@[i as int]));
        }
        if let Some(s) = items[i].as_str() {
            r.push(s.clone());
            assert(texts(r@) =~= before.push(s@));
        }
        i = i + 1;
    }
    assert(trees.take(i as int) =~= trees);
    r
}

} // verus!
