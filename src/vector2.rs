use vstd::prelude::*;
use vstd::std_specs::ops::{AddSpec, DivSpec, MulSpec, NegSpec, SubSpec};

verus! {

/// A pair of components.
#[derive(Clone, Copy, Debug, Default)]
pub struct Vector2<T> {
    pub x: T,
    pub y: T,
}

impl<T> Vector2<T> {
    pub fn new(x: T, y: T) -> (r: Vector2<T>)
        ensures
            r.x == x,
            r.y == y,
    {
        Vector2 { x, y }
    }

    /// The components as `[x, y]`.
    pub fn to_array(self) -> (r: [T; 2])
        ensures
            r@ == seq![self.x, self.y],
    {
        [self.x, self.y]
    }
}

impl<T> std::ops::Neg for Vector2<T> where T: Copy + std::ops::Neg<Output = T> {
    type Output = Vector2<T>;

    fn neg(self) -> (r: Vector2<T>) {
        Vector2 { x: self.x.neg(), y: self.y.neg() }
    }
}

impl<T> vstd::std_specs::ops::NegSpecImpl for Vector2<T> where T: Copy + std::ops::Neg<Output = T> {
    open spec fn obeys_neg_spec() -> bool {
        T::obeys_neg_spec()
    }

    open spec fn neg_req(self) -> bool {
        self.x.neg_req() && self.y.neg_req()
    }

    open spec fn neg_spec(self) -> Vector2<T> {
        Vector2 { x: self.x.neg_spec(), y: self.y.neg_spec() }
    }
}

impl<T> std::ops::Add for Vector2<T> where T: Copy + std::ops::Add<Output = T> {
    type Output = Vector2<T>;

    fn add(self, o: Vector2<T>) -> (r: Vector2<T>) {
        Vector2 { x: self.x.add(o.x), y: self.y.add(o.y) }
    }
}

impl<T> vstd::std_specs::ops::AddSpecImpl for Vector2<T> where T: Copy + std::ops::Add<Output = T> {
    open spec fn obeys_add_spec() -> bool {
        T::obeys_add_spec()
    }

    open spec fn add_req(self, o: Vector2<T>) -> bool {
        self.x.add_req(o.x) && self.y.add_req(o.y)
    }

    open spec fn add_spec(self, o: Vector2<T>) -> Vector2<T> {
        Vector2 { x: self.x.add_spec(o.x), y: self.y.add_spec(o.y) }
    }
}

impl<T> std::ops::Sub for Vector2<T> where T: Copy + std::ops::Sub<Output = T> {
    type Output = Vector2<T>;

    fn sub(self, o: Vector2<T>) -> (r: Vector2<T>) {
        Vector2 { x: self.x.sub(o.x), y: self.y.sub(o.y) }
    }
}

impl<T> vstd::std_specs::ops::SubSpecImpl for Vector2<T> where T: Copy + std::ops::Sub<Output = T> {
    open spec fn obeys_sub_spec() -> bool {
        T::obeys_sub_spec()
    }

    open spec fn sub_req(self, o: Vector2<T>) -> bool {
        self.x.sub_req(o.x) && self.y.sub_req(o.y)
    }

    open spec fn sub_spec(self, o: Vector2<T>) -> Vector2<T> {
        Vector2 { x: self.x.sub_spec(o.x), y: self.y.sub_spec(o.y) }
    }
}

impl<T> std::ops::Mul for Vector2<T> where T: Copy + std::ops::Mul<Output = T> {
    type Output = Vector2<T>;

    fn mul(self, o: Vector2<T>) -> (r: Vector2<T>) {
        Vector2 { x: self.x.mul(o.x), y: self.y.mul(o.y) }
    }
}

impl<T> vstd::std_specs::ops::MulSpecImpl for Vector2<T> where T: Copy + std::ops::Mul<Output = T> {
    open spec fn obeys_mul_spec() -> bool {
        T::obeys_mul_spec()
    }

    open spec fn mul_req(self, o: Vector2<T>) -> bool {
        self.x.mul_req(o.x) && self.y.mul_req(o.y)
    }

    open spec fn mul_spec(self, o: Vector2<T>) -> Vector2<T> {
        Vector2 { x: self.x.mul_spec(o.x), y: self.y.mul_spec(o.y) }
    }
}

impl<T> std::ops::Mul<T> for Vector2<T> where T: Copy + std::ops::Mul<Output = T> {
    type Output = Vector2<T>;

    fn mul(self, o: T) -> (r: Vector2<T>) {
        Vector2 { x: self.x.mul(o), y: self.y.mul(o) }
    }
}

impl<T> vstd::std_specs::ops::MulSpecImpl<T> for Vector2<T> where T: Copy + std::ops::Mul<Output = T> {
    open spec fn obeys_mul_spec() -> bool {
        T::obeys_mul_spec()
    }

    open spec fn mul_req(self, o: T) -> bool {
        self.x.mul_req(o) && self.y.mul_req(o)
    }

    open spec fn mul_spec(self, o: T) -> Vector2<T> {
        Vector2 { x: self.x.mul_spec(o), y: self.y.mul_spec(o) }
    }
}

impl<T> std::ops::Div for Vector2<T> where T: Copy + std::ops::Div<Output = T> {
    type Output = Vector2<T>;

    fn div(self, o: Vector2<T>) -> (r: Vector2<T>) {
        Vector2 { x: self.x.div(o.x), y: self.y.div(o.y) }
    }
}

impl<T> vstd::std_specs::ops::DivSpecImpl for Vector2<T> where T: Copy + std::ops::Div<Output = T> {
    open spec fn obeys_div_spec() -> bool {
        T::obeys_div_spec()
    }

    open spec fn div_req(self, o: Vector2<T>) -> bool {
        self.x.div_req(o.x) && self.y.div_req(o.y)
    }

    open spec fn div_spec(self, o: Vector2<T>) -> Vector2<T> {
        Vector2 { x: self.x.div_spec(o.x), y: self.y.div_spec(o.y) }
    }
}

impl<T> std::ops::Div<T> for Vector2<T> where T: Copy + std::ops::Div<Output = T> {
    type Output = Vector2<T>;

    fn div(self, o: T) -> (r: Vector2<T>) {
        Vector2 { x: self.x.div(o), y: self.y.div(o) }
    }
}

impl<T> vstd::std_specs::ops::DivSpecImpl<T> for Vector2<T> where T: Copy + std::ops::Div<Output = T> {
    open spec fn obeys_div_spec() -> bool {
        T::obeys_div_spec()
    }

    open spec fn div_req(self, o: T) -> bool {
        self.x.div_req(o) && self.y.div_req(o)
    }

    open spec fn div_spec(self, o: T) -> Vector2<T> {
        Vector2 { x: self.x.div_spec(o), y: self.y.div_spec(o) }
    }
}

impl<T> Vector2<T> where T: Copy + std::ops::Add<Output = T> + std::ops::Mul<Output = T> {
    /// `x * o.x + y * o.y`.
    pub fn dot(self, o: Vector2<T>) -> (r: T)
        requires
            self.x.mul_req(o.x),
            self.y.mul_req(o.y),
            T::obeys_mul_spec(),
            self.x.mul_spec(o.x).add_req(self.y.mul_spec(o.y)),
        ensures
            T::obeys_add_spec() ==> r == self.x.mul_spec(o.x).add_spec(self.y.mul_spec(o.y)),
    {
        let a = self.x.mul(o.x);
        let b = self.y.mul(o.y);
        a.add(b)
    }
}

} // verus!
