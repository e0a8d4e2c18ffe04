//! The fields of a dependent tuple, and the conversions between the parts
//! of types.

use crate::mir::Place;
use crate::ty::{Field, GhostVar, Path, Pred, Refine, Region, RegionModel, Tuple, Ty, Var};
use vstd::prelude::*;
use vstd::std_specs::convert::FromSpecImpl;

verus! {

impl Tuple {
    /// The number of fields.
    pub fn len(&self) -> (n: usize)
        ensures
            n == self@.len(),
    {
        self.0.len()
    }

    /// Whether the tuple has no field.
    pub fn is_empty(&self) -> (empty: bool)
        ensures
            empty == (self@.len() == 0),
    {
        self.0.len() == 0
    }

    /// The type of the field at position `n`.
    pub fn ty_at(&self, n: usize) -> (ty: &Ty)
        requires
            n < self@.len(),
        ensures
            *ty == self@[n as int].1,
    {
        &self.0[n].1
    }

    /// The types of the fields, in order.
    pub fn types(&self) -> (types: Vec<Ty>)
        ensures
            types@.len() == self@.len(),
            forall|i: int| 0 <= i < self@.len() ==> types@[i] == (#[trigger] self@[i]).1,
    {
        let mut types: Vec<Ty> = Vec::new();
        let mut i: usize = 0;
        while i < self.0.len()
            invariant
                i <= self.0.len(),
                types@.len() == i,
                forall|k: int| 0 <= k < i ==> types@[k] == (#[trigger] self.0@[k]).1,
            decreases self.0.len() - i,
        {
            types.push(self.0[i].1);
            i = i + 1;
        }
        types
    }

    /// The names of the fields, in order.
    pub fn fields(&self) -> (fields: Vec<Field>)
        ensures
            fields@.len() == self@.len(),
            forall|i: int| 0 <= i < self@.len() ==> fields@[i] == (#[trigger] self@[i]).0,
    {
        let mut fields: Vec<Field> = Vec::new();
        let mut i: usize = 0;
        while i < self.0.len()
            invariant
                i <= self.0.len(),
                fields@.len() == i,
                forall|k: int| 0 <= k < i ==> fields@[k] == (#[trigger] self.0@[k]).0,
            decreases self.0.len() - i,
        {
            fields.push(self.0[i].0);
            i = i + 1;
        }
        fields
    }

    /// The fields with their types, in order.
    pub fn iter(&self) -> (all: Vec<(Field, Ty)>)
        ensures
            all@ == self@,
    {
        let mut all: Vec<(Field, Ty)> = Vec::new();
        let mut i: usize = 0;
        while i < self.0.len()
            invariant
                i <= self.0.len(),
                all@ == self.0@.take(i as int),
            decreases self.0.len() - i,
        {
            all.push(self.0[i]);
            assert(self.0@.take(i + 1) =~= self.0@.take(i as int).push(self.0@[i as int]));
            i = i + 1;
        }
        assert(self.0@.take(self.0.len() as int) =~= self.0@);
        all
    }

    /// The tuple of what `f` makes of each field, given its position, its
    /// name and its type. This tuple is left as it is.
    pub fn map<F: Fn(usize, &Field, &Ty) -> (Field, Ty)>(&self, f: F) -> (mapped: Tuple)
        requires
            forall|i: int|
                0 <= i < self@.len() ==> call_requires(
                    f,
                    (i as usize, &(#[trigger] self@[i]).0, &self@[i].1),
                ),
        ensures
            mapped@.len() == self@.len(),
            forall|i: int|
                0 <= i < self@.len() ==> call_ensures(
                    f,
                    (i as usize, &self@[i].0, &self@[i].1),
                    #[trigger] mapped@[i],
                ),
    {
        let mut fields: Vec<(Field, Ty)> = Vec::new();
        let mut i: usize = 0;
        assert forall|k: int| 0 <= k < self.0@.len() implies call_requires(
            f,
            (k as usize, &(#[trigger] self.0@[k]).0, &self.0@[k].1),
        ) by {
            assert(self@[k] == self.0@[k]);
        }
        while i < self.0.len()
            invariant
                i <= self.0.len(),
                fields@.len() == i,
                forall|k: int|
                    0 <= k < self.0@.len() ==> call_requires(
                        f,
                        (k as usize, &(#[trigger] self.0@[k]).0, &self.0@[k].1),
                    ),
                forall|k: int|
                    0 <= k < i ==> call_ensures(
                        f,
                        (k as usize, &self.0@[k].0, &self.0@[k].1),
                        #[trigger] fields@[k],
                    ),
            decreases self.0.len() - i,
        {
            let made = f(i, &self.0[i].0, &self.0[i].1);
            fields.push(made);
            i = i + 1;
        }
        Tuple(fields)
    }

    /// The tuple in which the type of the field at position `n` is what `f`
    /// makes of it, and every other field is as in this one. This tuple is
    /// left as it is.
    pub fn map_ty_at<F: FnOnce(&Ty) -> Ty>(&self, n: usize, f: F) -> (mapped: Tuple)
        requires
            n < self@.len(),
            call_requires(f, (&self@[n as int].1,)),
        ensures
            mapped@.len() == self@.len(),
            forall|i: int| 0 <= i < self@.len() && i != n ==> #[trigger] mapped@[i] == self@[i],
            mapped@[n as int].0 == self@[n as int].0,
            call_ensures(f, (&self@[n as int].1,), mapped@[n as int].1),
    {
        let mut fields = self.iter();
        let field = fields[n].0;
        let ty = f(&self.0[n].1);
        fields.set(n, (field, ty));
        Tuple(fields)
    }
}

impl From<Pred> for Refine {
    fn from(pred: Pred) -> (refine: Refine) {
        Refine::Pred(pred)
    }
}

impl FromSpecImpl<Pred> for Refine {
    open spec fn obeys_from_spec() -> bool {
        true
    }

    open spec fn from_spec(pred: Pred) -> Refine {
        Refine::Pred(pred)
    }
}

impl From<Field> for Var {
    fn from(field: Field) -> (var: Var) {
        Var::Field(field)
    }
}

impl FromSpecImpl<Field> for Var {
    open spec fn obeys_from_spec() -> bool {
        true
    }

    open spec fn from_spec(field: Field) -> Var {
        Var::Field(field)
    }
}

impl From<GhostVar> for Var {
    fn from(var: GhostVar) -> (made: Var) {
        Var::GhostVar(var)
    }
}

impl FromSpecImpl<GhostVar> for Var {
    open spec fn obeys_from_spec() -> bool {
        true
    }

    open spec fn from_spec(var: GhostVar) -> Var {
        Var::GhostVar(var)
    }
}

impl Path {
    /// The path that is the variable itself.
    pub fn of(base: Var) -> (path: Path)
        ensures
            path.base == base,
            path.projs@ == Seq::<usize>::empty(),
    {
        Path::new(base, Vec::new())
    }
}

impl Region {
    /// A copy of the region.
    pub fn duplicate(&self) -> (copy: Region)
        ensures
            copy@ == self@,
    {
        match self {
            Region::Concrete(places) => {
                let mut copies: Vec<Place> = Vec::new();
                let mut i: usize = 0;
                while i < places.len()
                    invariant
                        i <= places.len(),
                        copies@.len() == i,
                        forall|k: int| 0 <= k < i ==> (#[trigger] copies@[k])@ == places@[k]@,
                    decreases places.len() - i,
                {
                    copies.push(places[i].duplicate());
                    i = i + 1;
                }
                let copy = Region::Concrete(copies);
                assert(copy@->Concrete_0 =~= self@->Concrete_0);
                copy
            },
            Region::Abstract(region) => Region::Abstract(*region),
            Region::Infer(region) => Region::Infer(*region),
        }
    }

    /// The concrete region of one place.
    pub fn of(place: Place) -> (region: Region)
        ensures
            region@ == RegionModel::Concrete(seq![place@]),
    {
        let mut places: Vec<Place> = Vec::new();
        places.push(place);
        let region = Region::Concrete(places);
        assert(region@->Concrete_0 =~= seq![place@]);
        region
    }
}

} // verus!
