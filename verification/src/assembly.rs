use vstd::prelude::*;
use crate::accel::BVH;
use crate::math::Matrix4x4;

verus! {

/// What an instance refers to.
#[derive(Debug, Copy, Clone, PartialEq, Eq, Structural)]
pub enum InstanceType {
    Object,
    Assembly,
}

/// A reference into an assembly's objects or child assemblies, with the
/// range of the assembly's transform samples that places it, if any.
#[derive(Debug, Copy, Clone)]
pub struct Instance {
    pub instance_type: InstanceType,
    pub data_index: usize,
    pub transform_indices: Option<(usize, usize)>,
}

/// A thing in the scene: a surface that rays can hit, or a light.
pub enum Object<S, L> {
    Surface(S),
    Light(L),
}

/// A unit of composition: instances of objects and of other assemblies,
/// with the hierarchy that finds the instances a ray may meet.
pub struct Assembly<S, L, B> {
    pub instances: Vec<Instance>,
    pub xforms: Vec<Matrix4x4>,
    pub objects: Vec<Object<S, L>>,
    pub assemblies: Vec<Assembly<S, L, B>>,
    pub object_accel: BVH<B>,
}

impl<S, L, B> Assembly<S, L, B> {
    /// Whether instance `i` refers to something that exists.
    pub open spec fn instance_ok(self, i: int) -> bool {
        let inst = self.instances@[i];
        &&& match inst.instance_type {
            InstanceType::Object => inst.data_index < self.objects@.len(),
            InstanceType::Assembly => inst.data_index < self.assemblies@.len(),
        }
        &&& match inst.transform_indices {
            Some((xstart, xend)) => xstart < xend <= self.xforms@.len(),
            None => true,
        }
    }

    /// Whether the assembly and every assembly below it hang together: the
    /// hierarchy is over the instances, and every instance refers to an
    /// object or assembly that exists and to transforms that exist.
    pub open spec fn wf(self) -> bool
        decreases self,
    {
        &&& self.object_accel.wf()
        &&& self.object_accel.object_count() <= self.instances@.len()
        &&& forall|i: int| 0 <= i < self.instances@.len() ==> self.instance_ok(i)
        &&& forall|i: int|
            0 <= i < self.assemblies@.len() ==> (#[trigger] self.assemblies@[i]).wf()
    }

    /// Checks whether instance `i` refers to something that exists.
    pub fn check_instance(&self, i: usize) -> (ok: bool)
        requires
            i < self.instances@.len(),
        ensures
            ok == self.instance_ok(i as int),
    {
        let inst = self.instances[i];
        let target = match inst.instance_type {
            InstanceType::Object => inst.data_index < self.objects.len(),
            InstanceType::Assembly => inst.data_index < self.assemblies.len(),
        };
        let placed = match inst.transform_indices {
            Some((xstart, xend)) => xstart < xend && xend <= self.xforms.len(),
            None => true,
        };
        target && placed
    }

    /// Checks whether the assembly and every assembly below it hang
    /// together, which is what tracing asks of them.
    pub fn is_sound(&self) -> (ok: bool)
        ensures
            ok == self.wf(),
        decreases self,
    {
        if self.object_accel.object_total() > self.instances.len() {
            return false;
        }
        let mut i: usize = 0;
        while i < self.instances.len()
            invariant
                i <= self.instances@.len(),
                forall|k: int| 0 <= k < i ==> self.instance_ok(k),
            decreases self.instances@.len() - i,
        {
            if !self.check_instance(i) {
                return false;
            }
            i = i + 1;
        }
        let mut a: usize = 0;
        while a < self.assemblies.len()
            invariant
                a <= self.assemblies@.len(),
                self.object_accel.wf(),
                self.object_accel.object_count() <= self.instances@.len(),
                forall|k: int| 0 <= k < self.instances@.len() ==> self.instance_ok(k),
                forall|k: int| 0 <= k < a ==> (#[trigger] self.assemblies@[k]).wf(),
            decreases self.assemblies@.len() - a,
        {
            if !self.assemblies[a].is_sound() {
                return false;
            }
            a = a + 1;
        }
        true
    }
}

} // verus!
