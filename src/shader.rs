//! Shader sources, as the bytes handed to the graphics driver.
use vstd::prelude::*;
use vstd::slice::slice_to_vec;
use vstd::string::StringSliceAdditionalSpecFns;

verus! {

/// Shader source, as the bytes of its text.
pub struct Shader {
    data: Vec<u8>,
}

impl View for Shader {
    type V = Seq<u8>;

    closed spec fn view(&self) -> Seq<u8> {
        self.data@
    }
}

impl Shader {
    /// A shader whose bytes are the UTF-8 encoding of `code`.
    pub fn from_str(code: &str) -> (r: Shader)
        ensures
            r@ == code.spec_bytes(),
    {
        Shader { data: slice_to_vec(code.as_bytes()) }
    }

    /// The bytes of the source.
    pub fn bytes(&self) -> (r: &[u8])
        ensures
            r@ == self@,
    {
        self.data.as_slice()
    }
}

} // verus!
