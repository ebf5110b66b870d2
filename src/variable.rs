use vstd::prelude::*;

verus! {

/// An opaque handle on an object behavior: the address of its script.
#[derive(Clone, Copy, Debug, PartialEq, Eq, Structural, Hash)]
pub struct PyObjectBehavior {
    pub behavior: u64,
}

/// An opaque memory address.
#[derive(Clone, Copy, Debug, PartialEq, Eq, Structural, Hash)]
pub struct PyAddress {
    pub address: u64,
}

/// A reference to one piece of simulated state: a field name with four
/// optional qualifiers. Qualifying makes a new value; the old one is kept.
#[derive(Debug, Hash)]
pub struct PyVariable {
    name: String,
    frame: Option<u32>,
    object: Option<usize>,
    object_behavior: Option<PyObjectBehavior>,
    surface: Option<usize>,
}

/// What a variable is: its name and its four qualifiers.
pub struct VariableView {
    pub name: Seq<char>,
    pub frame: Option<u32>,
    pub object: Option<usize>,
    pub object_behavior: Option<PyObjectBehavior>,
    pub surface: Option<usize>,
}

impl View for PyVariable {
    type V = VariableView;

    closed spec fn view(&self) -> VariableView {
        VariableView {
            name: self.name@,
            frame: self.frame,
            object: self.object,
            object_behavior: self.object_behavior,
            surface: self.surface,
        }
    }
}

impl PartialEq for PyVariable {
    fn eq(&self, other: &PyVariable) -> (r: bool)
        ensures
            r == (self@ == other@),
    {
        self.name == other.name && self.frame == other.frame && self.object == other.object
            && self.object_behavior == other.object_behavior && self.surface == other.surface
    }
}

impl vstd::std_specs::cmp::PartialEqSpecImpl for PyVariable {
    open spec fn obeys_eq_spec() -> bool {
        true
    }

    open spec fn eq_spec(&self, other: &PyVariable) -> bool {
        self@ == other@
    }
}

impl Eq for PyVariable {

}

impl Clone for PyVariable {
    fn clone(&self) -> (r: Self)
        ensures
            r@ == self@,
    {
        PyVariable {
            name: self.name.clone(),
            frame: self.frame,
            object: self.object,
            object_behavior: self.object_behavior,
            surface: self.surface,
        }
    }
}

impl PyVariable {
    /// A variable with the given name and no qualifiers.
    pub fn new(name: &str) -> (r: Self)
        ensures
            r@ == (VariableView {
                name: name@,
                frame: None,
                object: None,
                object_behavior: None,
                surface: None,
            }),
    {
        PyVariable {
            name: name.to_owned(),
            frame: None,
            object: None,
            object_behavior: None,
            surface: None,
        }
    }

    pub fn name(&self) -> (r: &str)
        ensures
            r@ == self@.name,
    {
        self.name.as_str()
    }

    pub fn frame(&self) -> (r: Option<u32>)
        ensures
            r == self@.frame,
    {
        self.frame
    }

    pub fn object(&self) -> (r: Option<usize>)
        ensures
            r == self@.object,
    {
        self.object
    }

    pub fn object_behavior(&self) -> (r: Option<PyObjectBehavior>)
        ensures
            r == self@.object_behavior,
    {
        self.object_behavior
    }

    pub fn surface(&self) -> (r: Option<usize>)
        ensures
            r == self@.surface,
    {
        self.surface
    }

    /// A copy of the variable, qualified by `frame`.
    pub fn with_frame(&self, frame: u32) -> (r: Self)
        ensures
            r@ == (VariableView { frame: Some(frame), ..self@ }),
    {
        let mut r = self.clone();
        r.frame = Some(frame);
        r
    }

    /// A copy of the variable without a frame.
    pub fn without_frame(&self) -> (r: Self)
        ensures
            r@ == (VariableView { frame: None, ..self@ }),
    {
        let mut r = self.clone();
        r.frame = None;
        r
    }

    /// A copy of the variable, qualified by the object slot `object`.
    pub fn with_object(&self, object: usize) -> (r: Self)
        ensures
            r@ == (VariableView { object: Some(object), ..self@ }),
    {
        let mut r = self.clone();
        r.object = Some(object);
        r
    }

    /// A copy of the variable without an object slot.
    pub fn without_object(&self) -> (r: Self)
        ensures
            r@ == (VariableView { object: None, ..self@ }),
    {
        let mut r = self.clone();
        r.object = None;
        r
    }

    /// A copy of the variable, qualified by the object behavior `behavior`.
    pub fn with_object_behavior(&self, behavior: &PyObjectBehavior) -> (r: Self)
        ensures
            r@ == (VariableView { object_behavior: Some(*behavior), ..self@ }),
    {
        let mut r = self.clone();
        r.object_behavior = Some(*behavior);
        r
    }

    /// A copy of the variable without an object behavior.
    pub fn without_object_behavior(&self) -> (r: Self)
        ensures
            r@ == (VariableView { object_behavior: None, ..self@ }),
    {
        let mut r = self.clone();
        r.object_behavior = None;
        r
    }

    /// A copy of the variable, qualified by the surface slot `surface`.
    pub fn with_surface(&self, surface: usize) -> (r: Self)
        ensures
            r@ == (VariableView { surface: Some(surface), ..self@ }),
    {
        let mut r = self.clone();
        r.surface = Some(surface);
        r
    }

    /// A copy of the variable without a surface slot.
    pub fn without_surface(&self) -> (r: Self)
        ensures
            r@ == (VariableView { surface: None, ..self@ }),
    {
        let mut r = self.clone();
        r.surface = None;
        r
    }
}

} // verus!
