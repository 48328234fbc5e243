//! Command aliases: a link under the alias directory that stands for the
//! command at the same path under `/`.

use vstd::prelude::*;
use crate::distrod_config::{alias_dir, get_alias_dir};
use crate::paths::{
    components, ends_clean, has_root, is_component, join_path, lemma_first_index_absent, lemma_raw_round_trip,
    path_join, path_starts_with, path_starts_with_exec, raw_rest, raw_strip_prefix, rest_after_components,
    strip_path_prefix_raw,
};
use crate::text::{lemma_first_index, split_spec};
use crate::paths::lemma_split_concat;

verus! {

/// Why an alias could not be made.
#[derive(Debug, Clone, Copy, PartialEq, Eq)]
pub enum AliasError {
    /// The source of an alias must be an absolute path.
    SourceNotAbsolute,
    /// The link does not lie in the alias directory.
    NotInAliasDir,
}

/// A command and its alias.
pub struct CommandAlias {
    source_path: String,
    link_path: String,
}

/// The abstract content of an alias.
pub struct CommandAliasView {
    pub source_path: Seq<char>,
    pub link_path: Seq<char>,
}

impl View for CommandAlias {
    type V = CommandAliasView;

    closed spec fn view(&self) -> CommandAliasView {
        CommandAliasView { source_path: self.source_path@, link_path: self.link_path@ }
    }
}

/// The link that stands for `source`: the alias directory joined with the
/// text of the source after its root (`Path::join` of `strip_prefix("/")`).
pub open spec fn link_path_for(source: Seq<char>) -> Seq<char> {
    path_join(alias_dir(), raw_rest(source, 0))
}

/// The command a link stands for, when the link lies in the alias
/// directory: the link's text after the alias directory (as
/// `Path::strip_prefix` leaves it), joined to `/`.
pub open spec fn source_path_for(link: Seq<char>) -> Option<Seq<char>> {
    match raw_strip_prefix(link, alias_dir()) {
        Some(rest) => Some(path_join("/"@, rest)),
        None => None,
    }
}

impl CommandAlias {
    /// Whether `path` lies in the alias directory.
    pub fn is_alias(path: &str) -> (r: bool)
        ensures
            r == path_starts_with(path@, alias_dir()),
    {
        path_starts_with_exec(path, get_alias_dir())
    }

    /// The alias of the command at `source` (which must be absolute); whether
    /// the link exists on disk is not looked at.
    pub fn from_source(source: &str) -> (r: Result<CommandAlias, AliasError>)
        ensures
            has_root(source@) ==> (r matches Ok(a) && a@.source_path == source@ && a@.link_path == link_path_for(source@)),
            !has_root(source@) ==> r == Err::<CommandAlias, AliasError>(AliasError::SourceNotAbsolute),
    {
        if !crate::paths::has_root_exec(source) {
            return Err(AliasError::SourceNotAbsolute);
        }
        let rel = rest_after_components(source, 0);
        let link_path = join_path(get_alias_dir(), rel.as_str());
        Ok(CommandAlias { source_path: source.to_owned(), link_path })
    }

    /// The alias whose link is `link_path`; the command it stands for is the
    /// link's text after the alias directory, joined to `/`. Whether
    /// that command still exists is not looked at.
    pub fn open_from_link(link_path: &str) -> (r: Result<CommandAlias, AliasError>)
        ensures
            match source_path_for(link_path@) {
                Some(src) => r matches Ok(a) && a@.source_path == src && a@.link_path == link_path@,
                None => r == Err::<CommandAlias, AliasError>(AliasError::NotInAliasDir),
            },
    {
        match strip_path_prefix_raw(link_path, get_alias_dir()) {
            Some(rest) => {
                let source_path = join_path("/", rest.as_str());
                Ok(CommandAlias { source_path, link_path: link_path.to_owned() })
            },
            None => Err(AliasError::NotInAliasDir),
        }
    }

    /// The path of the command.
    pub fn get_source_path(&self) -> (r: &str)
        ensures
            r@ == self@.source_path,
    {
        self.source_path.as_str()
    }

    /// The path of the link.
    pub fn get_link_path(&self) -> (r: &str)
        ensures
            r@ == self@.link_path,
    {
        self.link_path.as_str()
    }
}

/// The alias directory has a root and ends with a component.
pub proof fn lemma_alias_dir_shape()
    ensures
        has_root(alias_dir()),
        alias_dir().last() != '/',
        is_component(split_spec(alias_dir(), '/').last()),
{
    reveal_strlit("/opt/distrod/alias");
    reveal_strlit("/opt/distrod");
    reveal_strlit("alias");
    let head = "/opt/distrod"@;
    let tail = "alias"@;
    assert(alias_dir() =~= head + seq!['/'] + tail);
    lemma_split_concat(head, '/', tail);
    assert(!tail.contains('/')) by {
        if tail.contains('/') {
            let i = choose|i: int| 0 <= i < tail.len() && tail[i] == '/';
        }
    }
    lemma_first_index_absent(tail, '/');
    lemma_first_index(tail, '/');
    assert(split_spec(tail, '/') == seq![tail]);
    assert(tail != seq!['.']) by {
        assert(tail.len() != 1);
    }
}

/// The link made for an absolute command lies in the alias directory, and
/// opening that link gives back the command's text after its root, under
/// `/`: a path with the command's components, and the command itself when
/// it has no `/` or `.` pieces at its ends.
pub proof fn lemma_alias_round_trip(source: Seq<char>)
    requires
        has_root(source),
    ensures
        path_starts_with(link_path_for(source), alias_dir()),
        source_path_for(link_path_for(source)) == Some(path_join("/"@, raw_rest(source, 0))),
        components(path_join("/"@, raw_rest(source, 0))) == components(source),
        ends_clean(source) ==> source_path_for(link_path_for(source)) == Some(source),
{
    lemma_alias_dir_shape();
    lemma_raw_round_trip(alias_dir(), source);
}

} // verus!
