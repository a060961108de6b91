//! The canonical annotation: one image, its labelled boxes in absolute pixels.
use crate::text::{
    lemma_lex_le_antisymmetric, lemma_lex_le_reflexive, lemma_lex_le_total,
    lemma_lex_le_transitive, lex_le, str_le,
};
use vstd::prelude::*;

verus! {

/// A box by its pixel corners.
#[derive(Debug, Clone, Copy, PartialEq, Eq, Structural)]
pub struct Bndbox {
    pub xmin: u32,
    pub ymin: u32,
    pub xmax: u32,
    pub ymax: u32,
}

impl Bndbox {
    /// The corners stand in order: neither side is negative.
    pub open spec fn ordered(&self) -> bool {
        self.xmin <= self.xmax && self.ymin <= self.ymax
    }

    /// Whether the corners stand in order.
    pub fn is_ordered(&self) -> (b: bool)
        ensures
            b == self.ordered(),
    {
        self.xmin <= self.xmax && self.ymin <= self.ymax
    }

    /// The width of the box in pixels.
    pub fn width(&self) -> (w: u32)
        requires
            self.xmin <= self.xmax,
        ensures
            w == self.xmax - self.xmin,
    {
        self.xmax - self.xmin
    }

    /// The height of the box in pixels.
    pub fn height(&self) -> (h: u32)
        requires
            self.ymin <= self.ymax,
        ensures
            h == self.ymax - self.ymin,
    {
        self.ymax - self.ymin
    }

    /// Whether the box has no area: one of its sides is 0.
    pub fn is_empty(&self) -> (b: bool)
        requires
            self.ordered(),
        ensures
            b == (self.xmax == self.xmin || self.ymax == self.ymin),
    {
        self.width() == 0 || self.height() == 0
    }
}

/// A labelled box.
#[derive(Debug, PartialEq, Eq)]
pub struct Object {
    pub name: String,
    pub bndbox: Bndbox,
}

/// What an `Object` is: its label as characters, and its box.
pub struct ObjectView {
    pub name: Seq<char>,
    pub bndbox: Bndbox,
}

impl View for Object {
    type V = ObjectView;

    open spec fn view(&self) -> ObjectView {
        ObjectView { name: self.name@, bndbox: self.bndbox }
    }
}

impl Object {
    /// A copy with the same label and box.
    pub fn duplicate(&self) -> (o: Object)
        ensures
            o == *self,
    {
        Object { name: self.name.clone(), bndbox: self.bndbox }
    }
}

/// The views of a sequence of objects, in order.
pub open spec fn object_views(objects: Seq<Object>) -> Seq<ObjectView> {
    objects.map_values(|o: Object| o@)
}

/// The views of a sequence of strings, in order.
pub open spec fn string_views(strings: Seq<String>) -> Seq<Seq<char>> {
    strings.map_values(|s: String| s@)
}

/// The labels that a filter lets through: all of them, or those listed.
pub open spec fn labels_view(labels: Option<Vec<String>>) -> Option<Seq<Seq<char>>> {
    match labels {
        None => None,
        Some(l) => Some(string_views(l@)),
    }
}

/// Whether the filter lets `name` through.
pub open spec fn allowed(labels: Option<Seq<Seq<char>>>, name: Seq<char>) -> bool {
    match labels {
        None => true,
        Some(l) => l.contains(name),
    }
}

/// The objects that the filter keeps, in their order.
pub open spec fn retained(objects: Seq<ObjectView>, labels: Option<Seq<Seq<char>>>) -> Seq<
    ObjectView,
> {
    objects.filter(|o: ObjectView| allowed(labels, o.name))
}

/// The labels that occur among `objects`.
pub open spec fn names_of(objects: Seq<ObjectView>) -> Set<Seq<char>> {
    Set::new(
        |n: Seq<char>| exists|i: int| 0 <= i < objects.len() && (#[trigger] objects[i]).name == n,
    )
}

/// The labels that a filter names: every label, or those listed.
pub open spec fn label_set(labels: Option<Seq<Seq<char>>>) -> Set<Seq<char>> {
    Set::new(|n: Seq<char>| allowed(labels, n))
}

/// Filtering by label is a true filter. An object stays exactly when it was there and
/// its label is let through; so the labels left are those of the input that the filter
/// names, and nothing is left exactly when the input has no such label. Without a list
/// of labels every object stays.
pub proof fn lemma_filter_by_label(objects: Seq<ObjectView>, labels: Option<Seq<Seq<char>>>)
    ensures
        forall|o: ObjectView| #[trigger]
            retained(objects, labels).contains(o) <==> objects.contains(o) && allowed(
                labels,
                o.name,
            ),
        names_of(retained(objects, labels)) == names_of(objects).intersect(label_set(labels)),
        retained(objects, labels).len() == 0 <==> names_of(objects).intersect(label_set(labels))
            == Set::<Seq<char>>::empty(),
        labels is None ==> retained(objects, labels) == objects,
{
    let pred = |o: ObjectView| allowed(labels, o.name);
    let kept = objects.filter(pred);
    assert forall|o: ObjectView| #[trigger] kept.contains(o) <==> objects.contains(o) && allowed(
        labels,
        o.name,
    ) by {
        if kept.contains(o) {
            objects.lemma_filter_contains_rev(pred, o);
            let j = choose|j: int| 0 <= j < kept.len() && kept[j] == o;
            objects.lemma_filter_pred(pred, j);
        }
        if objects.contains(o) && allowed(labels, o.name) {
            let i = choose|i: int| 0 <= i < objects.len() && objects[i] == o;
            objects.lemma_filter_contains(pred, i);
        }
    }
    let both = names_of(objects).intersect(label_set(labels));
    assert forall|n: Seq<char>| names_of(kept).contains(n) <==> both.contains(n) by {
        if names_of(kept).contains(n) {
            let j = choose|j: int| 0 <= j < kept.len() && (#[trigger] kept[j]).name == n;
            assert(kept.contains(kept[j]));
        }
        if both.contains(n) {
            let i = choose|i: int| 0 <= i < objects.len() && (#[trigger] objects[i]).name == n;
            assert(kept.contains(objects[i]));
        }
    }
    if kept.len() == 0 {
        assert(both =~= Set::<Seq<char>>::empty());
    } else {
        assert(names_of(kept).contains(kept[0].name));
    }
    if labels is None {
        lemma_filter_all(objects, pred);
    }
}

/// A filter that every element passes keeps the sequence as it is.
proof fn lemma_filter_all(s: Seq<ObjectView>, pred: spec_fn(ObjectView) -> bool)
    requires
        forall|o: ObjectView| #[trigger] pred(o),
    ensures
        s.filter(pred) == s,
    decreases s.len(),
{
    reveal(Seq::filter);
    if s.len() > 0 {
        lemma_filter_all(s.drop_last(), pred);
    }
}

/// One image and its objects.
#[derive(Debug, PartialEq, Eq)]
pub struct Annotation {
    pub folder: String,
    pub filename: String,
    pub objects: Option<Vec<Object>>,
}

/// What an `Annotation` is. An annotation without a list of objects and one
/// with an empty list both have no objects.
pub struct AnnotationView {
    pub folder: Seq<char>,
    pub filename: Seq<char>,
    pub objects: Seq<ObjectView>,
}

impl View for Annotation {
    type V = AnnotationView;

    open spec fn view(&self) -> AnnotationView {
        AnnotationView {
            folder: self.folder@,
            filename: self.filename@,
            objects: match self.objects {
                None => Seq::empty(),
                Some(v) => object_views(v@),
            },
        }
    }
}

/// Whether `name` is one of `labels`.
pub fn has_label(labels: &Vec<String>, name: &String) -> (b: bool)
    ensures
        b == string_views(labels@).contains(name@),
{
    let mut i: usize = 0;
    while i < labels.len()
        invariant
            i <= labels.len(),
            forall|j: int| 0 <= j < i ==> string_views(labels@)[j] != name@,
        decreases labels.len() - i,
    {
        if labels[i] == *name {
            assert(string_views(labels@)[i as int] == name@);
            return true;
        }
        i += 1;
    }
    false
}

/// Whether the filter `labels` lets `name` through.
pub fn accepts(labels: &Option<Vec<String>>, name: &String) -> (b: bool)
    ensures
        b == allowed(labels_view(*labels), name@),
{
    match labels {
        None => true,
        Some(l) => has_label(l, name),
    }
}

impl Annotation {
    /// Keeps the objects whose label the filter lets through, in their order.
    /// Nothing comes back when no object is left.
    pub fn with_filtered_objects(self, labels: &Option<Vec<String>>) -> (kept: Option<Annotation>)
        ensures
            kept is Some <==> retained(self@.objects, labels_view(*labels)).len() > 0,
            kept matches Some(a) ==> {
                &&& a.folder == self.folder
                &&& a.filename == self.filename
                &&& a.objects is Some
                &&& a@.objects == retained(self@.objects, labels_view(*labels))
            },
    {
        let ghost pred = |o: ObjectView| allowed(labels_view(*labels), o.name);
        match self.objects {
            Some(objects) => {
                let mut filtered: Vec<Object> = Vec::new();
                let mut i: usize = 0;
                while i < objects.len()
                    invariant
                        i <= objects.len(),
                        pred == |o: ObjectView| allowed(labels_view(*labels), o.name),
                        object_views(filtered@) == object_views(objects@.take(i as int)).filter(
                            pred,
                        ),
                    decreases objects.len() - i,
                {
                    proof {
                        let before = object_views(objects@.take(i as int));
                        assert(object_views(objects@.take(i + 1)) == before.push(objects[i as int]@));
                        before.lemma_filter_push(objects[i as int]@, pred);
                    }
                    if accepts(labels, &objects[i].name) {
                        let o = objects[i].duplicate();
                        filtered.push(o);
                    }
                    i += 1;
                }
                assert(objects@.take(i as int) == objects@);
                if filtered.len() == 0 {
                    None
                } else {
                    Some(Annotation { folder: self.folder, filename: self.filename, objects: Some(filtered) })
                }
            },
            None => {
                None
            },
        }
    }
}

/// Whether the labels of `objects` never go down.
pub open spec fn sorted_by_name(objects: Seq<ObjectView>) -> bool {
    forall|i: int, j: int|
        0 <= i <= j < objects.len() ==> lex_le(
            (#[trigger] objects[i]).name,
            (#[trigger] objects[j]).name,
        )
}

/// The objects with the label `name`, in their order.
pub open spec fn with_name(objects: Seq<ObjectView>, name: Seq<char>) -> Seq<ObjectView> {
    objects.filter(|o: ObjectView| o.name == name)
}

/// Whether `sorted` holds the objects of `objects` by ascending label, those of one
/// label in the order that they have in `objects`.
pub open spec fn is_stable_sort(sorted: Seq<ObjectView>, objects: Seq<ObjectView>) -> bool {
    &&& sorted.len() == objects.len()
    &&& sorted_by_name(sorted)
    &&& forall|name: Seq<char>| #[trigger] with_name(sorted, name) == with_name(objects, name)
}

/// Two sorted sequences with the same objects of every label, in the same order, are one
/// sequence.
proof fn lemma_sorted_groups_agree(a: Seq<ObjectView>, b: Seq<ObjectView>)
    requires
        a.len() == b.len(),
        sorted_by_name(a),
        sorted_by_name(b),
        forall|name: Seq<char>| #[trigger] with_name(a, name) == with_name(b, name),
    ensures
        a == b,
    decreases a.len(),
{
    reveal(Seq::filter);
    if a.len() == 0 {
        assert(a =~= b);
    } else {
        let x = a.last();
        let y = b.last();
        // the last label of each occurs in the other, so neither comes after the other
        assert(with_name(b, x.name).contains(x)) by {
            assert(with_name(a, x.name).last() == x);
        }
        b.lemma_filter_contains_rev(|o: ObjectView| o.name == x.name, x);
        let i = choose|i: int| 0 <= i < b.len() && b[i] == x;
        assert(lex_le(b[i].name, y.name));
        assert(with_name(a, y.name).contains(y)) by {
            assert(with_name(b, y.name).last() == y);
        }
        a.lemma_filter_contains_rev(|o: ObjectView| o.name == y.name, y);
        let j = choose|j: int| 0 <= j < a.len() && a[j] == y;
        assert(lex_le(a[j].name, x.name));
        lemma_lex_le_antisymmetric(x.name, y.name);
        assert(x == y) by {
            assert(with_name(a, x.name).last() == x);
            assert(with_name(b, x.name).last() == y);
        }
        assert forall|name: Seq<char>| #[trigger]
            with_name(a.drop_last(), name) == with_name(b.drop_last(), name) by {
            assert(with_name(a, name) == with_name(b, name));
            if name == x.name {
                assert(with_name(a.drop_last(), name) =~= with_name(a, name).drop_last());
                assert(with_name(b.drop_last(), name) =~= with_name(b, name).drop_last());
            }
        }
        assert forall|i: int, j: int| 0 <= i <= j < a.len() - 1 implies lex_le(
            (#[trigger] a.drop_last()[i]).name,
            (#[trigger] a.drop_last()[j]).name,
        ) by {
            assert(a.drop_last()[i] == a[i] && a.drop_last()[j] == a[j]);
        }
        assert forall|i: int, j: int| 0 <= i <= j < b.len() - 1 implies lex_le(
            (#[trigger] b.drop_last()[i]).name,
            (#[trigger] b.drop_last()[j]).name,
        ) by {
            assert(b.drop_last()[i] == b[i] && b.drop_last()[j] == b[j]);
        }
        lemma_sorted_groups_agree(a.drop_last(), b.drop_last());
        assert(a =~= a.drop_last().push(x));
        assert(b =~= b.drop_last().push(y));
    }
}

/// Sorting by label, with the order kept within a label, has one result: any two stable
/// sorts of the same objects are equal.
pub proof fn lemma_stable_sort_unique(
    first: Seq<ObjectView>,
    second: Seq<ObjectView>,
    objects: Seq<ObjectView>,
)
    requires
        is_stable_sort(first, objects),
        is_stable_sort(second, objects),
    ensures
        first == second,
{
    assert forall|name: Seq<char>| #[trigger] with_name(first, name) == with_name(second, name) by {
        assert(with_name(first, name) == with_name(objects, name));
        assert(with_name(second, name) == with_name(objects, name));
    }
    lemma_sorted_groups_agree(first, second);
}

/// The objects of one label in `front + back` are those in `front`, then those in `back`.
proof fn lemma_with_name_add(front: Seq<ObjectView>, back: Seq<ObjectView>, name: Seq<char>)
    ensures
        with_name(front + back, name) == with_name(front, name) + with_name(back, name),
{
    Seq::filter_distributes_over_add(front, back, |o: ObjectView| o.name == name);
}

/// Of a single object, the objects of one label are that object or none.
proof fn lemma_with_name_one(x: ObjectView, name: Seq<char>)
    ensures
        with_name(seq![x], name) == if x.name == name {
            seq![x]
        } else {
            Seq::empty()
        },
{
    reveal_with_fuel(Seq::filter, 2);
}

/// Where no object carries a label, there are no objects of that label.
proof fn lemma_with_name_none(s: Seq<ObjectView>, name: Seq<char>)
    requires
        forall|i: int| 0 <= i < s.len() ==> (#[trigger] s[i]).name != name,
    ensures
        with_name(s, name) == Seq::<ObjectView>::empty(),
    decreases s.len(),
{
    reveal(Seq::filter);
    if s.len() > 0 {
        lemma_with_name_none(s.drop_last(), name);
    }
}

/// Putting `x` into a sorted sequence, before the first object whose label does not come
/// before its own, keeps the sequence sorted and puts `x` in front of its label's objects.
proof fn lemma_insert_sorted(s: Seq<ObjectView>, p: int, x: ObjectView)
    requires
        sorted_by_name(s),
        0 <= p <= s.len(),
        forall|q: int| 0 <= q < p ==> !lex_le(x.name, (#[trigger] s[q]).name),
        p < s.len() ==> lex_le(x.name, s[p].name),
    ensures
        sorted_by_name(s.insert(p, x)),
        forall|name: Seq<char>| #[trigger]
            with_name(s.insert(p, x), name) == with_name(seq![x] + s, name),
{
    let t = s.insert(p, x);
    assert forall|i: int, j: int| 0 <= i <= j < t.len() implies lex_le(
        (#[trigger] t[i]).name,
        (#[trigger] t[j]).name,
    ) by {
        if i == j {
            lemma_lex_le_reflexive(t[i].name);
        } else if j == p {
            lemma_lex_le_total(x.name, s[i].name);
        } else if i == p {
            lemma_lex_le_transitive(x.name, s[p].name, s[j - 1].name);
        }
    }
    assert forall|name: Seq<char>| #[trigger]
        with_name(t, name) == with_name(seq![x] + s, name) by {
        let front = s.take(p);
        let back = s.skip(p);
        assert(t =~= front + seq![x] + back);
        assert(s =~= front + back);
        lemma_with_name_add(front + seq![x], back, name);
        lemma_with_name_add(front, seq![x], name);
        lemma_with_name_add(front, back, name);
        lemma_with_name_add(seq![x], s, name);
        lemma_with_name_one(x, name);
        if x.name == name {
            lemma_lex_le_reflexive(name);
            lemma_with_name_none(front, name);
        }
    }
}

/// Sorts by label, ascending in the order of strings; objects of one label keep their
/// order.
pub fn sort_by_name(objects: Vec<Object>) -> (sorted: Vec<Object>)
    ensures
        is_stable_sort(object_views(sorted@), object_views(objects@)),
{
    let ghost all = object_views(objects@);
    let mut rest = objects;
    let mut sorted: Vec<Object> = Vec::new();
    while rest.len() > 0
        invariant
            rest.len() + sorted.len() == all.len(),
            object_views(rest@) == all.take(rest.len() as int),
            sorted_by_name(object_views(sorted@)),
            forall|name: Seq<char>| #[trigger]
                with_name(object_views(sorted@), name) == with_name(
                    all.skip(rest.len() as int),
                    name,
                ),
        decreases rest.len(),
    {
        let ghost n = rest.len() as int;
        let ghost before = object_views(sorted@);
        let x = rest.pop().unwrap();
        assert(x@ == all[n - 1]) by {
            assert(all.take(n)[n - 1] == all[n - 1]);
        }
        let mut p: usize = 0;
        while p < sorted.len() && !str_le(x.name.as_str(), sorted[p].name.as_str())
            invariant
                p <= sorted.len(),
                before == object_views(sorted@),
                forall|q: int| 0 <= q < p ==> !lex_le(x@.name, (#[trigger] before[q]).name),
            decreases sorted.len() - p,
        {
            p += 1;
        }
        proof {
            lemma_insert_sorted(before, p as int, x@);
            assert(object_views(sorted@.insert(p as int, x)) =~= before.insert(p as int, x@));
            assert(all.skip(n - 1) =~= seq![x@] + all.skip(n));
            assert forall|name: Seq<char>| #[trigger]
                with_name(before.insert(p as int, x@), name) == with_name(
                    all.skip(n - 1),
                    name,
                ) by {
                lemma_with_name_add(seq![x@], before, name);
                lemma_with_name_add(seq![x@], all.skip(n), name);
            }
        }
        sorted.insert(p, x);
    }
    assert(all.skip(0) =~= all);
    sorted
}

} // verus!
