use vstd::prelude::*;

verus! {

/// Bounces that always continue when the scene file names none.
pub const DEFAULT_MIN_DEPTH: usize = 5;

/// Depth past which roulette halves the survival chance when the scene file
/// names none.
pub const DEFAULT_DEPTH_LIMIT: usize = 64;

/// The `[renderer]` table of a scene file.
pub struct Renderer {
    pub samples: usize,
    pub depth: Option<usize>,
    pub depth_limit: Option<usize>,
    pub no_direct_emitter: Option<bool>,
    pub threads: Option<usize>,
    pub integrator: Option<String>,
}

/// The estimator that each sample runs.
#[derive(Clone, Copy, Debug, PartialEq, Eq, Structural)]
pub enum Integrator {
    /// Plain path tracing: light is found only by bouncing into it.
    Pt,
    /// Path tracing with next-event estimation: each bounce also samples a
    /// point on a light.
    PtDirect,
}

/// A setting of the `[renderer]` table that cannot be used.
#[derive(Debug, PartialEq, Eq)]
pub enum SettingsError {
    /// The integrator named is neither `pt` nor `pt-direct`.
    UnknownIntegrator(String),
}

/// The integrator that `name` selects.
pub open spec fn integrator_named(name: Seq<char>) -> Option<Integrator> {
    if name == "pt"@ {
        Some(Integrator::Pt)
    } else if name == "pt-direct"@ {
        Some(Integrator::PtDirect)
    } else {
        None
    }
}

/// The depth rules that the integrator follows on each path.
#[derive(Clone, Copy, Debug, PartialEq, Eq, Structural)]
pub struct PathRules {
    /// Bounces up to this depth always continue.
    pub min_depth: usize,
    /// Past this depth, each further bounce halves the survival chance.
    pub depth_limit: usize,
    /// Emitters seen straight from the camera add nothing.
    pub no_direct_emitter: bool,
}

impl PathRules {
    /// Whether a hit at `depth` adds its material's emission: not on the
    /// camera ray when direct emitters are suppressed, not when light
    /// sampling already counted it (`suppressed`), and only on the side the
    /// surface faces (`facing`).
    pub fn emits(&self, depth: usize, suppressed: bool, facing: bool) -> (r: bool)
        ensures
            r == (!(self.no_direct_emitter && depth == 0) && !suppressed && facing),
    {
        !(self.no_direct_emitter && depth == 0) && !suppressed && facing
    }

    /// How many times the survival chance is halved at `depth`.
    pub fn halvings(&self, depth: usize) -> (r: usize)
        ensures
            r == if depth > self.depth_limit { depth - self.depth_limit } else { 0 },
    {
        if depth > self.depth_limit {
            depth - self.depth_limit
        } else {
            0
        }
    }

    /// Whether a path at `depth` continues whatever roulette would say, as
    /// long as its survival chance is above zero.
    pub fn forced(&self, depth: usize) -> (r: bool)
        ensures
            r == (depth <= self.min_depth),
    {
        depth <= self.min_depth
    }
}

impl Renderer {
    /// The depth rules, with the defaults for what the table leaves out.
    pub fn path_rules(&self) -> (r: PathRules)
        ensures
            r.min_depth == match self.depth {
                Some(d) => d,
                None => DEFAULT_MIN_DEPTH,
            },
            r.depth_limit == match self.depth_limit {
                Some(d) => d,
                None => DEFAULT_DEPTH_LIMIT,
            },
            r.no_direct_emitter == match self.no_direct_emitter {
                Some(b) => b,
                None => false,
            },
    {
        PathRules {
            min_depth: match self.depth {
                Some(d) => d,
                None => DEFAULT_MIN_DEPTH,
            },
            depth_limit: match self.depth_limit {
                Some(d) => d,
                None => DEFAULT_DEPTH_LIMIT,
            },
            no_direct_emitter: match self.no_direct_emitter {
                Some(b) => b,
                None => false,
            },
        }
    }

    /// The number of worker threads: the one the table names, or `cpus`
    /// where it names none or zero.
    pub fn thread_count(&self, cpus: usize) -> (r: usize)
        ensures
            r == match self.threads {
                Some(t) if t > 0 => t,
                _ => cpus,
            },
    {
        match self.threads {
            Some(t) if t > 0 => t,
            _ => cpus,
        }
    }

    /// The integrator the table names, `pt-direct` where it names none.
    pub fn integrator_kind(&self) -> (r: Result<Integrator, SettingsError>)
        ensures
            self.integrator is None ==> r == Ok::<Integrator, SettingsError>(Integrator::PtDirect),
            self.integrator is Some ==> match integrator_named(self.integrator->Some_0@) {
                Some(k) => r == Ok::<Integrator, SettingsError>(k),
                None => r is Err && r->Err_0 == SettingsError::UnknownIntegrator(self.integrator->Some_0),
            },
    {
        match &self.integrator {
            None => Ok(Integrator::PtDirect),
            Some(name) => {
                let pt = "pt".to_owned();
                let pt_direct = "pt-direct".to_owned();
                if *name == pt {
                    Ok(Integrator::Pt)
                } else if *name == pt_direct {
                    Ok(Integrator::PtDirect)
                } else {
                    Err(SettingsError::UnknownIntegrator(name.clone()))
                }
            },
        }
    }
}

/// `names` holds `name`.
pub open spec fn named(names: Seq<String>, name: Seq<char>) -> bool {
    exists|j: int| 0 <= j < names.len() && #[trigger] names[j]@ == name
}

/// `i` is the position of the first of `names` equal to `name`.
pub open spec fn is_first(names: Seq<String>, name: Seq<char>, i: int) -> bool {
    &&& 0 <= i < names.len()
    &&& names[i]@ == name
    &&& forall|j: int| 0 <= j < i ==> #[trigger] names[j]@ != name
}

/// The position of the first of `names` equal to `name`, if any.
pub fn first_named(names: &Vec<String>, name: &String) -> (r: Option<usize>)
    ensures
        match r {
            Some(i) => is_first(names@, name@, i as int),
            None => !named(names@, name@),
        },
{
    let mut i: usize = 0;
    while i < names.len()
        invariant
            i <= names@.len(),
            forall|j: int| 0 <= j < i ==> #[trigger] names@[j]@ != name@,
        decreases names@.len() - i,
    {
        if names[i] == *name {
            return Some(i);
        }
        i = i + 1;
    }
    None
}

/// What an object of a scene file names: its own name, if any, its mesh
/// and its material, if any.
pub struct ObjectRefs {
    pub name: Option<String>,
    pub mesh: String,
    pub material: Option<String>,
}

/// Positions, in the lists of a scene file, of what an object refers to:
/// its mesh, its material if it names one, and the light that makes it an
/// emitter if there is one.
#[derive(Clone, Copy, Debug, PartialEq, Eq, Structural)]
pub struct Resolved {
    pub mesh: usize,
    pub material: Option<usize>,
    pub light: Option<usize>,
}

/// A name in a scene file that refers to nothing.
#[derive(Debug, PartialEq, Eq)]
pub enum LookupError {
    /// No mesh has this name.
    MissingMesh(String),
    /// No material has this name.
    MissingMaterial(String),
}

/// Looks up what `object` refers to. Each name refers to the first item of
/// its list with that name; the light is the first whose object is the
/// object's own name. A missing mesh is reported before a missing material.
pub fn resolve_object(
    object: &ObjectRefs,
    meshes: &Vec<String>,
    materials: &Vec<String>,
    light_objects: &Vec<String>,
) -> (r: Result<Resolved, LookupError>)
    ensures
        !named(meshes@, object.mesh@) ==> r == Err::<Resolved, LookupError>(
            LookupError::MissingMesh(object.mesh),
        ),
        named(meshes@, object.mesh@) && object.material is Some && !named(
            materials@,
            object.material->Some_0@,
        ) ==> r == Err::<Resolved, LookupError>(LookupError::MissingMaterial(object.material->Some_0)),
        r is Ok ==> {
            &&& is_first(meshes@, object.mesh@, r->Ok_0.mesh as int)
            &&& match object.material {
                Some(m) => r->Ok_0.material is Some && is_first(materials@, m@, r->Ok_0.material->Some_0 as int),
                None => r->Ok_0.material is None,
            }
            &&& match object.name {
                Some(n) => match r->Ok_0.light {
                    Some(l) => is_first(light_objects@, n@, l as int),
                    None => !named(light_objects@, n@),
                },
                None => r->Ok_0.light is None,
            }
        },
        named(meshes@, object.mesh@) && (object.material is Some ==> named(materials@, object.material->Some_0@))
            ==> r is Ok,
{
    let mesh = match first_named(meshes, &object.mesh) {
        Some(i) => i,
        None => return Err(LookupError::MissingMesh(object.mesh.clone())),
    };
    let material = match &object.material {
        Some(m) => match first_named(materials, m) {
            Some(i) => Some(i),
            None => return Err(LookupError::MissingMaterial(m.clone())),
        },
        None => None,
    };
    let light = match &object.name {
        Some(n) => first_named(light_objects, n),
        None => None,
    };
    Ok(Resolved { mesh, material, light })
}

} // verus!
