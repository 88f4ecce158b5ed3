//! A header store whose names compare without regard to ASCII case and which
//! keeps the order in which fields were first inserted.
use vstd::prelude::*;
use crate::text::{fold_name, names_equal};

verus! {

/// A header block as the contracts see it: (name, value) pairs in order.
pub type Fields = Seq<(Seq<char>, Seq<char>)>;

/// Whether `name` is the name of field `i`, case aside.
pub open spec fn names_match(h: Fields, i: int, name: Seq<char>) -> bool {
    0 <= i < h.len() && fold_name(h[i].0) == fold_name(name)
}

/// No two fields share a name, case aside.
pub open spec fn unique_names(h: Fields) -> bool {
    forall|i: int, j: int|
        0 <= i < h.len() && 0 <= j < h.len() && #[trigger] fold_name(h[i].0) == #[trigger] fold_name(
            h[j].0,
        ) ==> i == j
}

pub open spec fn has_name(h: Fields, name: Seq<char>) -> bool {
    exists|i: int| names_match(h, i, name)
}

/// Where the field named `name` stands.
pub open spec fn index_of(h: Fields, name: Seq<char>) -> int {
    choose|i: int| names_match(h, i, name)
}

/// The value stored under `name`, case aside.
pub open spec fn lookup(h: Fields, name: Seq<char>) -> Option<Seq<char>> {
    if has_name(h, name) {
        Some(h[index_of(h, name)].1)
    } else {
        None
    }
}

/// The block after storing `value` under `name`: a field of that name is
/// replaced where it stands, otherwise the field goes at the end.
pub open spec fn inserted(h: Fields, name: Seq<char>, value: Seq<char>) -> Fields {
    if has_name(h, name) {
        h.update(index_of(h, name), (name, value))
    } else {
        h.push((name, value))
    }
}

pub proof fn lemma_index_of(h: Fields, i: int, name: Seq<char>)
    requires
        unique_names(h),
        names_match(h, i, name),
    ensures
        has_name(h, name),
        index_of(h, name) == i,
{
    let j = index_of(h, name);
    assert(names_match(h, j, name));
    assert(fold_name(h[i].0) == fold_name(h[j].0));
}

pub proof fn lemma_inserted_unique(h: Fields, name: Seq<char>, value: Seq<char>)
    requires
        unique_names(h),
    ensures
        unique_names(inserted(h, name, value)),
        lookup(inserted(h, name, value), name) == Some(value),
{
    let g = inserted(h, name, value);
    if has_name(h, name) {
        let k = index_of(h, name);
        assert(names_match(h, k, name));
        assert forall|i: int, j: int|
            0 <= i < g.len() && 0 <= j < g.len() && #[trigger] fold_name(g[i].0) == #[trigger] fold_name(
                g[j].0,
            ) implies i == j by {
            if i != k && j != k {
                assert(fold_name(h[i].0) == fold_name(h[j].0));
            } else if i == k && j != k {
                assert(fold_name(h[k].0) == fold_name(h[j].0));
            } else if i != k && j == k {
                assert(fold_name(h[i].0) == fold_name(h[k].0));
            }
        }
        lemma_index_of(g, k, name);
    } else {
        let k = h.len() as int;
        assert forall|i: int, j: int|
            0 <= i < g.len() && 0 <= j < g.len() && #[trigger] fold_name(g[i].0) == #[trigger] fold_name(
                g[j].0,
            ) implies i == j by {
            if i != k && j != k {
                assert(fold_name(h[i].0) == fold_name(h[j].0));
            } else if i == k && j != k {
                assert(!names_match(h, j, name));
            } else if i != k && j == k {
                assert(!names_match(h, i, name));
            }
        }
        assert(names_match(g, k, name));
        lemma_index_of(g, k, name);
    }
}

/// Storing under one name leaves what another name looks up.
pub proof fn lemma_lookup_other(h: Fields, name: Seq<char>, value: Seq<char>, other: Seq<char>)
    requires
        unique_names(h),
        fold_name(name) != fold_name(other),
    ensures
        lookup(inserted(h, name, value), other) == lookup(h, other),
{
    let g = inserted(h, name, value);
    lemma_inserted_unique(h, name, value);
    if has_name(h, other) {
        let i = index_of(h, other);
        assert(names_match(h, i, other));
        assert(names_match(g, i, other));
        lemma_index_of(g, i, other);
    } else {
        assert forall|i: int| !names_match(g, i, other) by {
            if names_match(g, i, other) {
                if i < h.len() && !(has_name(h, name) && i == index_of(h, name)) {
                    assert(names_match(h, i, other));
                }
            }
        }
    }
}

/// Header fields: at most one per name, names compared without regard to
/// ASCII case, kept in the order of first insertion, each name written as it
/// was last given.
pub struct HttpHeaders {
    fields: Vec<(String, String)>,
}

impl View for HttpHeaders {
    type V = Fields;

    closed spec fn view(&self) -> Fields {
        self.fields@.map_values(|f: (String, String)| (f.0@, f.1@))
    }
}

impl HttpHeaders {
    /// Well-formed: no two fields share a name, case aside.
    pub open spec fn wf(&self) -> bool {
        unique_names(self@)
    }

    pub fn new() -> (r: Self)
        ensures
            r@ == Seq::<(Seq<char>, Seq<char>)>::empty(),
            r.wf(),
    {
        let r = HttpHeaders { fields: Vec::new() };
        assert(r@ =~= Seq::<(Seq<char>, Seq<char>)>::empty());
        r
    }

    pub fn len(&self) -> (r: usize)
        ensures
            r == self@.len(),
    {
        self.fields.len()
    }

    pub fn name(&self, i: usize) -> (r: &String)
        requires
            i < self@.len(),
        ensures
            r@ == self@[i as int].0,
    {
        &self.fields[i].0
    }

    pub fn value(&self, i: usize) -> (r: &String)
        requires
            i < self@.len(),
        ensures
            r@ == self@[i as int].1,
    {
        &self.fields[i].1
    }

    /// Where the field named `name` (case aside) stands, if anywhere.
    pub fn position(&self, name: &str) -> (r: Option<usize>)
        requires
            self.wf(),
        ensures
            r matches Some(i) ==> has_name(self@, name@) && i == index_of(self@, name@),
            r is None ==> !has_name(self@, name@),
    {
        let mut i: usize = 0;
        while i < self.fields.len()
            invariant
                unique_names(self@),
                i <= self@.len(),
                forall|k: int| 0 <= k < i ==> !names_match(self@, k, name@),
            decreases self@.len() - i,
        {
            if names_equal(self.fields[i].0.as_str(), name) {
                proof {
                    lemma_index_of(self@, i as int, name@);
                }
                return Some(i);
            }
            i = i + 1;
        }
        None
    }

    /// The value stored under `name`, case aside.
    pub fn get(&self, name: &str) -> (r: Option<&String>)
        requires
            self.wf(),
        ensures
            match r {
                Some(v) => lookup(self@, name@) == Some(v@),
                None => lookup(self@, name@) is None,
            },
    {
        match self.position(name) {
            Some(i) => Some(&self.fields[i].1),
            None => None,
        }
    }

    /// Stores `value` under `name`; a field with the same name (case aside)
    /// is replaced where it stands.
    pub fn insert(&mut self, name: String, value: String)
        requires
            old(self).wf(),
        ensures
            final(self)@ == inserted(old(self)@, name@, value@),
            final(self).wf(),
    {
        proof {
            lemma_inserted_unique(self@, name@, value@);
        }
        let ghost old_view = self@;
        match self.position(name.as_str()) {
            Some(i) => {
                let ghost n = name@;
                let ghost v = value@;
                self.fields.set(i, (name, value));
                assert(self@ =~= old_view.update(i as int, (n, v)));
            },
            None => {
                let ghost n = name@;
                let ghost v = value@;
                self.fields.push((name, value));
                assert(self@ =~= old_view.push((n, v)));
            },
        }
    }
}

} // verus!
