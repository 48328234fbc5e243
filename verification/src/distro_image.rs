//! Distro images and the lists they are chosen from.

use vstd::prelude::*;

verus! {

/// Which entry of a list is proposed by default: by position or by name.
#[derive(Debug, Clone, PartialEq, Eq)]
pub enum DefaultImageFetcher {
    Index(usize),
    Name(String),
}

/// Which entry is proposed by default, as a position or a name.
pub enum DefaultChoice {
    Index(usize),
    Name(Seq<char>),
}

impl View for DefaultImageFetcher {
    type V = DefaultChoice;

    open spec fn view(&self) -> DefaultChoice {
        match self {
            DefaultImageFetcher::Index(i) => DefaultChoice::Index(*i),
            DefaultImageFetcher::Name(n) => DefaultChoice::Name(n@),
        }
    }
}

/// Where an image is: a local file or a URL to download.
#[derive(Debug, Clone, PartialEq, Eq)]
pub enum DistroImageFile {
    Local(String),
    Url(String),
}

/// A distro image and its name.
#[derive(Debug, Clone)]
pub struct DistroImage {
    pub name: String,
    pub image: DistroImageFile,
}

} // verus!
