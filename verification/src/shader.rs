use vstd::prelude::*;

verus! {

/// The kind of resource a shader binding slot expects.
#[derive(Clone, Copy, PartialEq, Eq, Structural, Debug)]
pub enum ShaderBindingType {
    UniformBuffer,
    Texture2D,
    Sampler,
}

/// One binding slot of a shader: the slot index and the kind of resource
/// bound there.
pub struct ShaderBinding {
    pub(crate) binding: u32,
    pub(crate) binding_type: ShaderBindingType,
}

impl ShaderBinding {
    /// The slot index, as seen by specifications.
    pub closed spec fn spec_binding(self) -> u32 {
        self.binding
    }

    /// The resource kind, as seen by specifications.
    pub closed spec fn spec_binding_type(self) -> ShaderBindingType {
        self.binding_type
    }

    pub fn new(binding: u32, binding_type: ShaderBindingType) -> (r: Self)
        ensures
            r.spec_binding() == binding,
            r.spec_binding_type() == binding_type,
    {
        ShaderBinding { binding, binding_type }
    }

    /// The slot index.
    pub fn binding(&self) -> (b: u32)
        ensures
            b == self.spec_binding(),
    {
        self.binding
    }

    /// The resource kind.
    pub fn binding_type(&self) -> (t: &ShaderBindingType)
        ensures
            *t == self.spec_binding_type(),
    {
        &self.binding_type
    }
}

/// The 32-bit value encoded by four bytes in little-endian order.
pub open spec fn le_word(b0: u8, b1: u8, b2: u8, b3: u8) -> u32 {
    (b0 + b1 * 0x100 + b2 * 0x1_0000 + b3 * 0x100_0000) as u32
}

/// A shader: its code as 32-bit words, the entry point name, the named
/// binding slots, and the named vertex inputs. Creating the device-level
/// module from the code words is the embedding application's concern.
pub struct Shader {
    code: Vec<u32>,
    entry: String,
    bindings: Vec<(String, ShaderBinding)>,
    inputs: Vec<(String, u32)>,
}

impl Shader {
    /// The code words, as seen by specifications.
    pub closed spec fn spec_code(self) -> Seq<u32> {
        self.code@
    }

    /// The entry point name, as seen by specifications.
    pub closed spec fn spec_entry(self) -> Seq<char> {
        self.entry@
    }

    /// The named binding slots, as seen by specifications.
    pub closed spec fn spec_bindings(self) -> Seq<(String, ShaderBinding)> {
        self.bindings@
    }

    /// The named vertex inputs, as seen by specifications.
    pub closed spec fn spec_inputs(self) -> Seq<(String, u32)> {
        self.inputs@
    }

    /// Packs the shader byte stream into 32-bit words, four bytes at a
    /// time in little-endian order, discarding any trailing partial word,
    /// and records the entry point, bindings, and inputs alongside.
    pub fn new(
        bytes: &Vec<u8>,
        entry: String,
        bindings: Vec<(String, ShaderBinding)>,
        inputs: Vec<(String, u32)>,
    ) -> (r: Self)
        ensures
            r.spec_code().len() == bytes@.len() / 4,
            forall|i: int|
                0 <= i < bytes@.len() / 4 ==> (#[trigger] r.spec_code()[i]) == le_word(
                    bytes@[4 * i],
                    bytes@[4 * i + 1],
                    bytes@[4 * i + 2],
                    bytes@[4 * i + 3],
                ),
            r.spec_entry() == entry@,
            r.spec_bindings() == bindings@,
            r.spec_inputs() == inputs@,
    {
        let n = bytes.len() / 4;
        let mut code: Vec<u32> = Vec::new();
        let mut i: usize = 0;
        while i < n
            invariant
                n == bytes@.len() / 4,
                4 * n <= bytes@.len(),
                bytes@.len() <= usize::MAX,
                i <= n,
                code@.len() == i,
                forall|j: int|
                    0 <= j < i ==> (#[trigger] code@[j]) == le_word(
                        bytes@[4 * j],
                        bytes@[4 * j + 1],
                        bytes@[4 * j + 2],
                        bytes@[4 * j + 3],
                    ),
            decreases n - i,
        {
            let b0 = bytes[4 * i];
            let b1 = bytes[4 * i + 1];
            let b2 = bytes[4 * i + 2];
            let b3 = bytes[4 * i + 3];
            let w = b0 as u32 + (b1 as u32) * 0x100 + (b2 as u32) * 0x1_0000 + (b3 as u32)
                * 0x100_0000;
            code.push(w);
            i += 1;
        }
        Shader { code, entry, bindings, inputs }
    }

    /// The shader code as 32-bit words.
    pub fn code(&self) -> (c: &Vec<u32>)
        ensures
            c@ == self.spec_code(),
    {
        &self.code
    }

    /// The entry point name.
    pub fn entry(&self) -> (e: &String)
        ensures
            e@ == self.spec_entry(),
    {
        &self.entry
    }

    /// The named binding slots.
    pub fn bindings(&self) -> (b: &Vec<(String, ShaderBinding)>)
        ensures
            b@ == self.spec_bindings(),
    {
        &self.bindings
    }

    /// The named vertex inputs.
    pub fn inputs(&self) -> (v: &Vec<(String, u32)>)
        ensures
            v@ == self.spec_inputs(),
    {
        &self.inputs
    }
}

} // verus!
