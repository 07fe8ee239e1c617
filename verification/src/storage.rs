//! A picture of the files of a storage.

use std::path::PathBuf;
use std::time::SystemTime;

use vstd::prelude::*;

use crate::natural::{
    is_permutation, lemma_natural_ranks, natural_order_of, natural_ranks, texts,
};

verus! {

/// A path of std. The library carries paths and never looks into them.
#[verifier::external_type_specification]
#[verifier::external_body]
pub struct ExPathBuf(std::path::PathBuf);

/// A point in time of std. The library carries it and never looks into it.
#[verifier::external_type_specification]
#[verifier::external_body]
pub struct ExSystemTime(std::time::SystemTime);

/// `PathBuf::clone` of std: the clone is a path equal to the one it was
/// made of.
pub assume_specification[ <std::path::PathBuf as Clone>::clone ](p: &std::path::PathBuf) -> (r:
    std::path::PathBuf)
    ensures
        r == *p,
;

/// The constant `SystemTime::UNIX_EPOCH` of std.
#[verifier::external_body]
fn unix_epoch() -> (t: SystemTime) {
    SystemTime::UNIX_EPOCH
}

/// Whether the entries of a directory are known.
#[derive(Debug, Clone, Copy, PartialEq, Eq)]
pub enum LoadState {
    NotLoaded,
    NeedLoad,
    Loaded,
}

impl Default for LoadState {
    fn default() -> (s: Self)
        ensures
            s == LoadState::NotLoaded,
    {
        LoadState::NotLoaded
    }
}

/// A file or a directory with what is known of it.
#[derive(Debug)]
pub enum FSRepr {
    File { path: PathBuf, modified: SystemTime },
    Directory { path: PathBuf, children: Vec<FSRepr>, modified: SystemTime, load_state: LoadState },
}

impl FSRepr {
    /// The path of the entry.
    pub open spec fn path(&self) -> PathBuf {
        match self {
            FSRepr::File { path, .. } => *path,
            FSRepr::Directory { path, .. } => *path,
        }
    }

    /// A copy of the path of the entry.
    pub fn to_filename(&self) -> (p: PathBuf)
        ensures
            p == self.path(),
    {
        let path = match self {
            FSRepr::File { path, .. } => path,
            FSRepr::Directory { path, .. } => path,
        };
        path.clone()
    }

    /// A directory of which nothing is known yet.
    pub fn new(path: PathBuf) -> (d: FSRepr)
        ensures
            d matches FSRepr::Directory { path: p, children, load_state, .. } && p == path
                && children@.len() == 0 && load_state == LoadState::NotLoaded,
    {
        FSRepr::Directory {
            path,
            children: Vec::new(),
            load_state: LoadState::NotLoaded,
            modified: unix_epoch(),
        }
    }
}

/// `Path::to_str` of std on `path`: the path as text, if it is valid
/// UTF-8. Nothing is claimed of the result.
#[verifier::external_body]
fn path_text(path: &PathBuf) -> (text: Option<String>) {
    match path.to_str() {
        Some(text) => Some(text.to_owned()),
        None => None,
    }
}

/// `PathBuf::eq` of std: whether two paths are made of the same parts.
/// Nothing is claimed of the result.
#[verifier::external_body]
fn same_path(a: &PathBuf, b: &PathBuf) -> (same: bool) {
    a == b
}

/// The entry with the load state `Loaded`, if it is a directory.
pub open spec fn as_loaded(e: FSRepr) -> FSRepr {
    match e {
        FSRepr::Directory { path, children, modified, .. } => FSRepr::Directory {
            path,
            children,
            modified,
            load_state: LoadState::Loaded,
        },
        FSRepr::File { path, modified } => FSRepr::File { path, modified },
    }
}

/// The entries, each in a slot of its own.
fn into_slots(entries: Vec<FSRepr>) -> (slots: Vec<Option<FSRepr>>)
    ensures
        slots@.len() == entries@.len(),
        forall|i: int| 0 <= i < slots@.len() ==> #[trigger] slots@[i] == Some(entries@[i]),
{
    let mut rest = entries;
    let mut back: Vec<Option<FSRepr>> = Vec::new();
    // from the end, so that each entry is moved once
    while rest.len() > 0
        invariant
            rest@.len() <= entries@.len(),
            back@.len() == entries@.len() - rest@.len(),
            rest@ == entries@.take(rest@.len() as int),
            forall|i: int|
                0 <= i < back@.len() ==> #[trigger] back@[i] == Some(
                    entries@[entries@.len() - 1 - i],
                ),
        decreases rest@.len(),
    {
        let e = rest.pop();
        back.push(e);
    }
    let mut slots: Vec<Option<FSRepr>> = Vec::new();
    while back.len() > 0
        invariant
            back@.len() <= entries@.len(),
            slots@.len() == entries@.len() - back@.len(),
            forall|i: int|
                0 <= i < back@.len() ==> #[trigger] back@[i] == Some(
                    entries@[entries@.len() - 1 - i],
                ),
            forall|i: int| 0 <= i < slots@.len() ==> #[trigger] slots@[i] == Some(entries@[i]),
        decreases back@.len(),
    {
        let e = back.pop();
        match e {
            Some(slot) => {
                slots.push(slot);
            },
            None => {},
        }
    }
    slots
}

impl FSRepr {
    /// The path of the entry.
    pub fn path_ref(&self) -> (p: &PathBuf)
        ensures
            *p == self.path(),
    {
        match self {
            FSRepr::File { path, .. } => path,
            FSRepr::Directory { path, .. } => path,
        }
    }

    /// Whether the entry is a directory whose entries are known.
    pub open spec fn is_loaded_spec(&self) -> bool {
        self matches FSRepr::Directory { load_state, .. } && load_state == LoadState::Loaded
    }

    /// Whether the entry is a directory whose entries are known.
    #[verifier::when_used_as_spec(is_loaded_spec)]
    pub fn is_loaded(&self) -> (b: bool)
        ensures
            b == self.is_loaded_spec(),
    {
        match self {
            FSRepr::Directory { load_state, .. } => match load_state {
                LoadState::Loaded => true,
                _ => false,
            },
            FSRepr::File { .. } => false,
        }
    }

    /// The entries in the natural order of the names that go with them:
    /// entry `i` of the result is the entry whose name has rank `i`.
    pub fn order_by_names(children: Vec<FSRepr>, names: &Vec<String>) -> (out: Vec<FSRepr>)
        requires
            names@.len() == children@.len(),
        ensures
            out@.len() == children@.len(),
            forall|i: int|
                0 <= i < out@.len() ==> #[trigger] out@[i] == children@[natural_ranks(
                    texts(names@),
                    names@.len(),
                )[i] as int],
    {
        let n = children.len();
        let ranks = natural_order_of(names);
        let mut slots = into_slots(children);
        let mut out: Vec<FSRepr> = Vec::new();
        let mut i: usize = 0;
        while i < n
            invariant
                i <= n,
                n == children@.len(),
                slots@.len() == n,
                is_permutation(ranks@, n as nat),
                out@.len() == i,
                forall|j: int| 0 <= j < i ==> #[trigger] out@[j] == children@[ranks@[j] as int],
                forall|s: int|
                    0 <= s < n ==> #[trigger] slots@[s] == (if exists|j: int|
                        0 <= j < i && ranks@[j] == s {
                        None
                    } else {
                        Some(children@[s])
                    }),
            decreases n - i,
        {
            let r = ranks[i];
            let ghost before = slots@;
            proof {
                if exists|j: int| 0 <= j < i && ranks@[j] == r {
                    let j = choose|j: int| 0 <= j < i && ranks@[j] == r;
                    assert(ranks@[j] != ranks@[i as int]);
                }
                assert(before[r as int] == Some(children@[r as int]));
            }
            let e = slots[r].take();
            match e {
                Some(entry) => {
                    out.push(entry);
                },
                None => {},
            }
            proof {
                assert forall|s: int| 0 <= s < n implies #[trigger] slots@[s] == (if exists|j: int|
                    0 <= j < i + 1 && ranks@[j] == s {
                    None
                } else {
                    Some(children@[s])
                }) by {
                    if s == r {
                        assert(ranks@[i as int] == s);
                    } else {
                        assert(slots@[s] == before[s]);
                        if exists|j: int| 0 <= j < i + 1 && ranks@[j] == s {
                            let j = choose|j: int| 0 <= j < i + 1 && ranks@[j] == s;
                            assert(j < i);
                        }
                    }
                }
            }
            i += 1;
        }
        out
    }

    /// The listed entries, but in place of each entry for which `found`
    /// names an entry known before, that earlier entry.
    pub fn keep_known(known: Vec<FSRepr>, listed: Vec<FSRepr>, found: &Vec<Option<usize>>) -> (out:
        Vec<FSRepr>)
        requires
            found@.len() == listed@.len(),
            forall|i: int|
                0 <= i < found@.len() ==> ((#[trigger] found@[i]) matches Some(j) ==> j
                    < known@.len()),
            forall|i: int, k: int|
                0 <= i < k < found@.len() && found@[i].is_some() ==> found@[i] != found@[k],
        ensures
            out@.len() == listed@.len(),
            forall|i: int|
                0 <= i < out@.len() ==> #[trigger] out@[i] == (match found@[i] {
                    Some(j) => known@[j as int],
                    None => listed@[i],
                }),
    {
        let n = listed.len();
        let mut old = into_slots(known);
        let mut new = into_slots(listed);
        let mut out: Vec<FSRepr> = Vec::new();
        let mut i: usize = 0;
        while i < n
            invariant
                i <= n,
                n == listed@.len(),
                found@.len() == n,
                new@.len() == n,
                old@.len() == known@.len(),
                out@.len() == i,
                forall|a: int|
                    0 <= a < found@.len() ==> ((#[trigger] found@[a]) matches Some(j) ==> j
                        < known@.len()),
                forall|a: int, k: int|
                    0 <= a < k < found@.len() && found@[a].is_some() ==> found@[a] != found@[k],
                forall|s: int| i <= s < n ==> #[trigger] new@[s] == Some(listed@[s]),
                forall|s: int|
                    0 <= s < old@.len() ==> #[trigger] old@[s] == (if exists|a: int|
                        0 <= a < i && found@[a] == Some(s as usize) {
                        None
                    } else {
                        Some(known@[s])
                    }),
                forall|a: int|
                    0 <= a < i ==> #[trigger] out@[a] == (match found@[a] {
                        Some(j) => known@[j as int],
                        None => listed@[a],
                    }),
            decreases n - i,
        {
            let fresh = new[i].take();
            let ghost before = old@;
            let target: Option<usize> = found[i];
            let mut earlier: Option<FSRepr> = None;
            if let Some(j) = target {
                proof {
                    if exists|a: int| 0 <= a < i && found@[a] == Some(j) {
                        let a = choose|a: int| 0 <= a < i && found@[a] == Some(j);
                        assert(found@[a] != found@[i as int]);
                    }
                    assert(before[j as int] == Some(known@[j as int]));
                }
                earlier = old[j].take();
            }
            match earlier {
                Some(entry) => {
                    out.push(entry);
                },
                None => {
                    if let Some(entry) = fresh {
                        out.push(entry);
                    }
                },
            }
            proof {
                assert forall|s: int| 0 <= s < old@.len() implies #[trigger] old@[s] == (if exists|
                    a: int,
                | 0 <= a < i + 1 && found@[a] == Some(s as usize) {
                    None
                } else {
                    Some(known@[s])
                }) by {
                    assert(old.len() <= usize::MAX);
                    if found@[i as int] == Some(s as usize) {
                    } else {
                        assert(old@[s] == before[s]);
                        if exists|a: int| 0 <= a < i + 1 && found@[a] == Some(s as usize) {
                            let a = choose|a: int| 0 <= a < i + 1 && found@[a] == Some(s as usize);
                            assert(a < i);
                        }
                    }
                }
            }
            i += 1;
        }
        out
    }

    /// The listed entries, those for which `loaded` is set as loaded
    /// directories.
    pub fn mark_loaded(listed: Vec<FSRepr>, loaded: &Vec<bool>) -> (out: Vec<FSRepr>)
        requires
            loaded@.len() == listed@.len(),
        ensures
            out@.len() == listed@.len(),
            forall|i: int|
                0 <= i < out@.len() ==> #[trigger] out@[i] == (if loaded@[i] {
                    as_loaded(listed@[i])
                } else {
                    listed@[i]
                }),
    {
        let n = listed.len();
        let mut new = into_slots(listed);
        let mut out: Vec<FSRepr> = Vec::new();
        let mut i: usize = 0;
        while i < n
            invariant
                i <= n,
                n == listed@.len(),
                loaded@.len() == n,
                new@.len() == n,
                out@.len() == i,
                forall|s: int| i <= s < n ==> #[trigger] new@[s] == Some(listed@[s]),
                forall|a: int|
                    0 <= a < i ==> #[trigger] out@[a] == (if loaded@[a] {
                        as_loaded(listed@[a])
                    } else {
                        listed@[a]
                    }),
            decreases n - i,
        {
            let fresh = new[i].take();
            if let Some(entry) = fresh {
                let entry = if loaded[i] {
                    match entry {
                        FSRepr::Directory { path, children, modified, .. } => FSRepr::Directory {
                            path,
                            children,
                            modified,
                            load_state: LoadState::Loaded,
                        },
                        FSRepr::File { path, modified } => FSRepr::File { path, modified },
                    }
                } else {
                    entry
                };
                out.push(entry);
            }
            i += 1;
        }
        out
    }

    /// The paths of the entries as text; the empty text for a path that is
    /// none.
    fn path_texts(children: &Vec<FSRepr>) -> (names: Vec<String>)
        ensures
            names@.len() == children@.len(),
    {
        let mut names: Vec<String> = Vec::new();
        let mut k: usize = 0;
        while k < children.len()
            invariant
                k <= children@.len(),
                names@.len() == k,
            decreases children.len() - k,
        {
            let name = match path_text(children[k].path_ref()) {
                Some(text) => text,
                None => String::new(),
            };
            names.push(name);
            k += 1;
        }
        names
    }

    /// The entries in the natural order of their paths: [`order_by_names`]
    /// with the paths as std gives them as text, the empty text for a path
    /// that is none. The result holds every entry once.
    ///
    /// [`order_by_names`]: FSRepr::order_by_names
    pub fn sort_children(children: Vec<FSRepr>) -> (out: Vec<FSRepr>)
        ensures
            out@.len() == children@.len(),
            exists|ranks: Seq<usize>|
                is_permutation(ranks, children@.len()) && forall|i: int|
                    0 <= i < out@.len() ==> out@[i] == children@[(#[trigger] ranks[i]) as int],
    {
        let names = Self::path_texts(&children);
        let out = Self::order_by_names(children, &names);
        proof {
            let ranks = natural_ranks(texts(names@), names@.len());
            assert(names.len() <= usize::MAX);
            lemma_natural_ranks(texts(names@), names@.len());
            assert(is_permutation(ranks, children@.len()) && forall|i: int|
                0 <= i < out@.len() ==> out@[i] == children@[(#[trigger] ranks[i]) as int]);
        }
        out
    }

    /// What is known of a directory after it has been listed for the first
    /// time: [`keep_known`] with, for each listed entry, the first entry
    /// known before that is not yet taken and whose path std finds equal;
    /// then [`sort_children`]. Every entry of the result is a listed or a
    /// known one.
    ///
    /// [`keep_known`]: FSRepr::keep_known
    /// [`sort_children`]: FSRepr::sort_children
    pub fn merge_listing(known: Vec<FSRepr>, listed: Vec<FSRepr>) -> (out: Vec<FSRepr>)
        ensures
            out@.len() == listed@.len(),
            forall|i: int|
                0 <= i < out@.len() ==> known@.contains(#[trigger] out@[i]) || listed@.contains(
                    out@[i],
                ),
    {
        let n = listed.len();
        let mut found: Vec<Option<usize>> = Vec::new();
        let mut i: usize = 0;
        while i < n
            invariant
                i <= n,
                n == listed@.len(),
                found@.len() == i,
                forall|a: int|
                    0 <= a < found@.len() ==> ((#[trigger] found@[a]) matches Some(j) ==> j
                        < known@.len()),
                forall|a: int, k: int|
                    0 <= a < k < found@.len() && found@[a].is_some() ==> found@[a] != found@[k],
            decreases n - i,
        {
            let mut place: Option<usize> = None;
            let mut s: usize = 0;
            while s < known.len() && place.is_none()
                invariant
                    s <= known@.len(),
                    i < n,
                    n == listed@.len(),
                    found@.len() == i,
                    place matches Some(j) ==> j < known@.len() && forall|a: int|
                        0 <= a < found@.len() ==> found@[a] != Some(j),
                decreases known@.len() - s + (if place.is_none() { 1nat } else { 0nat }),
            {
                let free = !Self::is_taken(&found, s);
                if free && same_path(known[s].path_ref(), listed[i].path_ref()) {
                    place = Some(s);
                } else {
                    s += 1;
                }
            }
            found.push(place);
            i += 1;
        }
        let chosen = Self::keep_known(known, listed, &found);
        let ghost picked = chosen@;
        let out = Self::sort_children(chosen);
        proof {
            let ranks = choose|ranks: Seq<usize>|
                is_permutation(ranks, picked.len()) && forall|i: int|
                    0 <= i < out@.len() ==> out@[i] == picked[(#[trigger] ranks[i]) as int];
            assert forall|i: int| 0 <= i < out@.len() implies known@.contains(#[trigger] out@[i])
                || listed@.contains(out@[i]) by {
                let r = ranks[i] as int;
                assert(out@[i] == picked[r]);
                match found@[r] {
                    Some(j) => {
                        assert(picked[r] == known@[j as int]);
                    },
                    None => {
                        assert(picked[r] == listed@[r]);
                    },
                }
            }
        }
        out
    }

    /// Whether `place` is named in `found`.
    fn is_taken(found: &Vec<Option<usize>>, place: usize) -> (taken: bool)
        ensures
            taken == exists|a: int| 0 <= a < found@.len() && found@[a] == Some(place),
    {
        let mut a: usize = 0;
        while a < found.len()
            invariant
                a <= found@.len(),
                forall|b: int| 0 <= b < a ==> found@[b] != Some(place),
            decreases found.len() - a,
        {
            if let Some(j) = found[a] {
                if j == place {
                    return true;
                }
            }
            a += 1;
        }
        false
    }

    /// What is known of a directory after it has been listed again:
    /// [`mark_loaded`] with, for each listed entry, whether the first entry
    /// known before whose path std finds equal is a loaded directory; then
    /// [`sort_children`]. Every entry of the result is a listed one, as it
    /// is or loaded.
    ///
    /// [`mark_loaded`]: FSRepr::mark_loaded
    /// [`sort_children`]: FSRepr::sort_children
    pub fn refresh_listing(known: &Vec<FSRepr>, listed: Vec<FSRepr>) -> (out: Vec<FSRepr>)
        ensures
            out@.len() == listed@.len(),
            forall|i: int|
                0 <= i < out@.len() ==> exists|j: int|
                    0 <= j < listed@.len() && (#[trigger] out@[i] == listed@[j] || out@[i]
                        == as_loaded(listed@[j])),
    {
        let n = listed.len();
        let mut loaded: Vec<bool> = Vec::new();
        let mut i: usize = 0;
        while i < n
            invariant
                i <= n,
                n == listed@.len(),
                loaded@.len() == i,
            decreases n - i,
        {
            let mut state = false;
            let mut met = false;
            let mut s: usize = 0;
            while s < known.len() && !met
                invariant
                    s <= known@.len(),
                    i < n,
                    n == listed@.len(),
                decreases known@.len() - s + (if met { 0nat } else { 1nat }),
            {
                if same_path(known[s].path_ref(), listed[i].path_ref()) {
                    met = true;
                    state = known[s].is_loaded();
                } else {
                    s += 1;
                }
            }
            loaded.push(state);
            i += 1;
        }
        let chosen = Self::mark_loaded(listed, &loaded);
        let ghost picked = chosen@;
        let out = Self::sort_children(chosen);
        proof {
            let ranks = choose|ranks: Seq<usize>|
                is_permutation(ranks, picked.len()) && forall|i: int|
                    0 <= i < out@.len() ==> out@[i] == picked[(#[trigger] ranks[i]) as int];
            assert forall|i: int| 0 <= i < out@.len() implies exists|j: int|
                0 <= j < listed@.len() && (#[trigger] out@[i] == listed@[j] || out@[i] == as_loaded(
                    listed@[j],
                )) by {
                let j = ranks[i] as int;
                assert(out@[i] == picked[j]);
                assert(picked[j] == listed@[j] || picked[j] == as_loaded(listed@[j]));
            }
        }
        out
    }
}

} // verus!
