//! What the constraints see of a scene: bodies, their names, where they are drawn, and which of
//! them are to be woken.

use crate::float::Float;
use crate::names::{texts, NameMap};
use crate::plane::{scaled, scaled_by, sum, sum_of};
use crate::scalar::F32;
use vstd::prelude::*;

verus! {

/// A body in the plane: the corner with the least coordinates, the extent, and the velocity.
#[derive(Clone, Copy, Debug)]
pub struct GameObject {
    pub position: (F32, F32),
    pub size: (F32, F32),
    pub momentum: (F32, F32),
}

/// The values that make up a body.
pub struct Body {
    pub position: (Float, Float),
    pub size: (Float, Float),
    pub momentum: (Float, Float),
}

impl View for GameObject {
    type V = Body;

    open spec fn view(&self) -> Body {
        Body { position: self.position@, size: self.size@, momentum: self.momentum@ }
    }
}

impl Body {
    /// The vector from the corner to the middle.
    pub open spec fn half(self) -> (Float, Float) {
        scaled(self.size, Float::ratio(1, 2))
    }

    /// The middle.
    pub open spec fn center(self) -> (Float, Float) {
        sum(self.position, self.half())
    }
}

impl GameObject {
    /// The vector from the corner to the middle.
    pub fn half(&self) -> (result: (F32, F32))
        ensures
            result@ == self@.half(),
    {
        scaled_by(self.size, F32::ratio(1, 2))
    }

    /// The middle.
    pub fn center(&self) -> (result: (F32, F32))
        ensures
            result@ == self@.center(),
    {
        sum_of(self.position, self.half())
    }
}

/// The bodies of a scene, and for each name the place of the body that has it.
#[derive(Debug)]
pub struct ObjectStore {
    pub objects: Vec<GameObject>,
    pub name_to_index: NameMap<usize>,
}

/// The bodies and the names of a scene.
#[verifier::ext_equal]
pub struct Store {
    pub bodies: Seq<Body>,
    pub index: Map<Seq<char>, usize>,
}

/// The values of a list of bodies.
pub open spec fn bodies(objects: Seq<GameObject>) -> Seq<Body> {
    Seq::new(objects.len(), |i: int| objects[i]@)
}

/// The values of a list of points.
pub open spec fn points(list: Seq<(F32, F32)>) -> Seq<(Float, Float)> {
    Seq::new(list.len(), |i: int| list[i]@)
}

impl View for ObjectStore {
    type V = Store;

    open spec fn view(&self) -> Store {
        Store { bodies: bodies(self.objects@), index: self.name_to_index@ }
    }
}

impl Store {
    /// Whether a name leads to a body.
    pub open spec fn knows(self, name: Seq<char>) -> bool {
        self.index.contains_key(name) && self.index[name] < self.bodies.len()
    }

    /// The body of a name, where the name leads to one.
    pub open spec fn find(self, name: Seq<char>) -> Option<Body> {
        if self.knows(name) {
            Some(self.bodies[self.index[name] as int])
        } else {
            None
        }
    }
}

impl ObjectStore {
    /// The place of the body of a name, where the name leads to one.
    pub fn index_of(&self, name: &String) -> (result: Option<usize>)
        requires
            self.name_to_index.wf(),
        ensures
            match result {
                Some(index) => self@.knows(name@) && index == self@.index[name@],
                None => !self@.knows(name@),
            },
    {
        match self.name_to_index.get(name) {
            Some(index) => if *index < self.objects.len() {
                Some(*index)
            } else {
                None
            },
            None => None,
        }
    }
}

/// Where the bodies are drawn.
#[derive(Debug)]
pub struct Layout {
    pub offsets: Vec<(F32, F32)>,
}

/// A scene, with the names of the bodies that are to be woken, in the order in which that was
/// asked for.
#[derive(Debug)]
pub struct Canvas {
    pub store: ObjectStore,
    pub layout: Layout,
    pub woken: Vec<String>,
}

/// The values that make up a scene.
#[verifier::ext_equal]
pub struct Scene {
    pub store: Store,
    pub offsets: Seq<(Float, Float)>,
    pub woken: Seq<Seq<char>>,
}

impl View for Canvas {
    type V = Scene;

    open spec fn view(&self) -> Scene {
        Scene {
            store: self.store@,
            offsets: points(self.layout.offsets@),
            woken: texts(self.woken@),
        }
    }
}

impl Canvas {
    /// Whether each name of the scene has one place.
    pub open spec fn wf(&self) -> bool {
        self.store.name_to_index.wf()
    }

    /// The body of a name.
    pub fn get_game_object(&self, name: &String) -> (result: Option<&GameObject>)
        requires
            self.wf(),
        ensures
            match result {
                Some(object) => self@.store.find(name@) == Some(object@),
                None => self@.store.find(name@) is None,
            },
    {
        match self.store.index_of(name) {
            Some(index) => Some(&self.store.objects[index]),
            None => None,
        }
    }

    /// Asks for a body to be woken.
    pub fn wake_body(&mut self, name: &String)
        requires
            old(self).wf(),
        ensures
            final(self).wf(),
            final(self)@ == (Scene { woken: old(self)@.woken.push(name@), ..old(self)@ }),
    {
        self.woken.push(name.clone());
        assert(self@.woken =~= old(self)@.woken.push(name@));
    }
}

/// The bodies that a command is for, by their names.
#[derive(Clone, Debug)]
pub struct Target {
    pub names: Vec<String>,
}

} // verus!
