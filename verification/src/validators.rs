//! Argument validation against a snapshot of the vault: membership of a
//! queried path and, when the query misses, suggestions scoped to the
//! query's base prefix.
//!
//! The snapshot is an explicit value handed in by the caller (built from a
//! recursive listing), so validation is a pure function of it.
use vstd::prelude::*;

use crate::paths::{base_of, base_prefix, norm, normalize};
use crate::text::{str_eq, str_starts_with};

verus! {

/// A vault entry as a listing or completion sees it: a leaf credential or
/// a namespace directory, each carrying its vault-relative path.
#[derive(Debug, PartialEq, Eq)]
pub enum CredentialItem {
    File(String),
    Dir(String),
}

/// Mathematical content of a credential item.
pub ghost enum ItemView {
    File(Seq<char>),
    Dir(Seq<char>),
}

impl ItemView {
    /// The path the item carries, whichever kind it is.
    pub open spec fn path(self) -> Seq<char> {
        match self {
            ItemView::File(p) => p,
            ItemView::Dir(p) => p,
        }
    }
}

impl View for CredentialItem {
    type V = ItemView;

    open spec fn view(&self) -> ItemView {
        match self {
            CredentialItem::File(p) => ItemView::File(p@),
            CredentialItem::Dir(p) => ItemView::Dir(p@),
        }
    }
}

impl DeepView for CredentialItem {
    type V = ItemView;

    open spec fn deep_view(&self) -> ItemView {
        self@
    }
}

impl Clone for CredentialItem {
    fn clone(&self) -> (r: Self)
        ensures
            r == *self,
    {
        match self {
            CredentialItem::File(p) => CredentialItem::File(p.clone()),
            CredentialItem::Dir(p) => CredentialItem::Dir(p.clone()),
        }
    }
}

impl CredentialItem {
    /// Whether the item is a namespace directory.
    pub fn is_dir(&self) -> (r: bool)
        ensures
            r == (self@ is Dir),
    {
        match self {
            CredentialItem::Dir(_) => true,
            CredentialItem::File(_) => false,
        }
    }

    /// The path the item carries.
    pub fn inner(&self) -> (r: &String)
        ensures
            r@ == self@.path(),
    {
        match self {
            CredentialItem::Dir(p) => p,
            CredentialItem::File(p) => p,
        }
    }

    /// Whether the item's path equals `value`, character for character.
    pub fn matches(&self, value: &String) -> (r: bool)
        ensures
            r == (self@.path() == value@),
    {
        str_eq(self.inner().as_str(), value.as_str())
    }
}

/// The directory items of a snapshot, in order.
pub open spec fn dirs_of(items: Seq<ItemView>) -> Seq<ItemView>
    decreases items.len(),
{
    if items.len() == 0 {
        items
    } else {
        let rest = dirs_of(items.drop_last());
        if items.last() is Dir {
            rest.push(items.last())
        } else {
            rest
        }
    }
}

/// The leaf items of a snapshot, in order.
pub open spec fn files_of(items: Seq<ItemView>) -> Seq<ItemView>
    decreases items.len(),
{
    if items.len() == 0 {
        items
    } else {
        let rest = files_of(items.drop_last());
        if items.last() is File {
            rest.push(items.last())
        } else {
            rest
        }
    }
}

/// The items whose path starts with `base`, in order: the suggestions for
/// a query with that base prefix.
pub open spec fn suggest_from(items: Seq<ItemView>, base: Seq<char>) -> Seq<ItemView>
    decreases items.len(),
{
    if items.len() == 0 {
        items
    } else {
        let rest = suggest_from(items.drop_last(), base);
        if base.is_prefix_of(items.last().path()) {
            rest.push(items.last())
        } else {
            rest
        }
    }
}

/// Whether some item of the snapshot carries exactly the path `q`.
pub open spec fn snapshot_matches(items: Seq<ItemView>, q: Seq<char>) -> bool {
    exists|i: int| 0 <= i < items.len() && (#[trigger] items[i]).path() == q
}

/// A path-argument validator over a snapshot of vault items.
pub struct CredentialValuesParser(Vec<CredentialItem>);

impl View for CredentialValuesParser {
    type V = Seq<ItemView>;

    closed spec fn view(&self) -> Seq<ItemView> {
        self.0.deep_view()
    }
}

impl CredentialValuesParser {
    /// A validator accepting every item of the snapshot.
    pub fn all(items: Vec<CredentialItem>) -> (r: CredentialValuesParser)
        ensures
            r@ == items.deep_view(),
    {
        CredentialValuesParser(items)
    }

    /// A validator accepting only the namespace directories of the
    /// snapshot.
    pub fn dirs(items: Vec<CredentialItem>) -> (r: CredentialValuesParser)
        ensures
            r@ == dirs_of(items.deep_view()),
    {
        let mut kept: Vec<CredentialItem> = Vec::new();
        proof {
            assert(items.deep_view().take(0) =~= Seq::<ItemView>::empty());
        }
        let mut i: usize = 0;
        while i < items.len()
            invariant
                0 <= i <= items.len(),
                items.deep_view().len() == items.len(),
                kept.deep_view() =~= dirs_of(items.deep_view().take(i as int)),
            decreases items.len() - i,
        {
            let it: &CredentialItem = &items[i];
            proof {
                assert(items.deep_view()[i as int] == it@);
                assert(items.deep_view().take(i + 1).drop_last() =~= items.deep_view().take(
                    i as int,
                ));
                assert(items.deep_view().take(i + 1).last() == it@);
            }
            let ghost kept_old = kept.deep_view();
            if it.is_dir() {
                kept.push(it.clone());
                proof {
                    assert(kept.deep_view() =~= kept_old.push(it@));
                }
            }
            i = i + 1;
        }
        proof {
            assert(items.deep_view().take(items.len() as int) =~= items.deep_view());
        }
        CredentialValuesParser(kept)
    }

    /// A validator accepting only the leaf credentials of the snapshot.
    pub fn files(items: Vec<CredentialItem>) -> (r: CredentialValuesParser)
        ensures
            r@ == files_of(items.deep_view()),
    {
        let mut kept: Vec<CredentialItem> = Vec::new();
        proof {
            assert(items.deep_view().take(0) =~= Seq::<ItemView>::empty());
        }
        let mut i: usize = 0;
        while i < items.len()
            invariant
                0 <= i <= items.len(),
                items.deep_view().len() == items.len(),
                kept.deep_view() =~= files_of(items.deep_view().take(i as int)),
            decreases items.len() - i,
        {
            let it: &CredentialItem = &items[i];
            proof {
                assert(items.deep_view()[i as int] == it@);
                assert(items.deep_view().take(i + 1).drop_last() =~= items.deep_view().take(
                    i as int,
                ));
                assert(items.deep_view().take(i + 1).last() == it@);
            }
            let ghost kept_old = kept.deep_view();
            if !it.is_dir() {
                kept.push(it.clone());
                proof {
                    assert(kept.deep_view() =~= kept_old.push(it@));
                }
            }
            i = i + 1;
        }
        proof {
            assert(items.deep_view().take(items.len() as int) =~= items.deep_view());
        }
        CredentialValuesParser(kept)
    }

    /// The items whose path starts with the base prefix of `value`: the
    /// suggestions offered when `value` itself matches nothing.
    pub fn filter_by_base(&self, value: &str) -> (r: Vec<CredentialItem>)
        ensures
            r.deep_view() == suggest_from(self@, base_of(value@)),
    {
        let base = base_prefix(value);
        let mut kept: Vec<CredentialItem> = Vec::new();
        proof {
            assert(self@.take(0) =~= Seq::<ItemView>::empty());
        }
        let mut i: usize = 0;
        while i < self.0.len()
            invariant
                0 <= i <= self.0.len(),
                self@.len() == self.0.len(),
                base@ == base_of(value@),
                kept.deep_view() =~= suggest_from(self@.take(i as int), base@),
            decreases self.0.len() - i,
        {
            let it: &CredentialItem = &self.0[i];
            proof {
                assert(self@[i as int] == it@);
                assert(self@.take(i + 1).drop_last() =~= self@.take(i as int));
                assert(self@.take(i + 1).last() == it@);
            }
            let ghost kept_old = kept.deep_view();
            if str_starts_with(it.inner().as_str(), base.as_str()) {
                kept.push(it.clone());
                proof {
                    assert(kept.deep_view() =~= kept_old.push(it@));
                }
            }
            i = i + 1;
        }
        proof {
            assert(self@.take(self.0.len() as int) =~= self@);
        }
        kept
    }

    /// Validates a path argument: strips one trailing separator, accepts
    /// the query iff some item matches it exactly, and answers a miss with
    /// the suggestions scoped to the query's base prefix.
    pub fn parse(&self, value: &str) -> (r: Result<String, Vec<CredentialItem>>)
        ensures
            r is Ok <==> snapshot_matches(self@, norm(value@)),
            r matches Ok(q) ==> q@ == norm(value@),
            r matches Err(sugg) ==> sugg.deep_view() == suggest_from(self@, base_of(norm(value@))),
    {
        let q = normalize(value);
        let mut i: usize = 0;
        while i < self.0.len()
            invariant
                0 <= i <= self.0.len(),
                self@.len() == self.0.len(),
                q@ == norm(value@),
                forall|j: int| 0 <= j < i ==> (#[trigger] self@[j]).path() != q@,
            decreases self.0.len() - i,
        {
            let it: &CredentialItem = &self.0[i];
            proof {
                assert(self@[i as int] == it@);
            }
            if it.matches(&q) {
                return Ok(q);
            }
            i = i + 1;
        }
        proof {
            assert(!snapshot_matches(self@, norm(value@))) by {
                if snapshot_matches(self@, norm(value@)) {
                    let w = choose|j: int|
                        0 <= j < self@.len() && (#[trigger] self@[j]).path() == norm(value@);
                    assert(self@[w].path() != q@);
                }
            }
        }
        Err(self.filter_by_base(q.as_str()))
    }
}

} // verus!
