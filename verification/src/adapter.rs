//! The graphics adapter that the engine draws with.
use vstd::prelude::*;

verus! {

/// The interface through which the adapter is driven.
#[derive(Clone, Copy, PartialEq, Eq, Structural, Debug)]
pub enum Backend {
    Empty,
    Vulkan,
    Metal,
    Dx12,
    Gl,
    BrowserWebGpu,
}

impl Backend {
    /// The name that the page is told.
    pub open spec fn name(self) -> Seq<char> {
        match self {
            Backend::Empty => "Empty"@,
            Backend::Vulkan => "Vulkan"@,
            Backend::Metal => "Metal"@,
            Backend::Dx12 => "Dx12"@,
            Backend::Gl => "Gl"@,
            Backend::BrowserWebGpu => "BrowserWebGpu"@,
        }
    }
}

/// What the engine knows of its adapter.
#[derive(Clone, Debug)]
pub struct RenderAdapterInfo {
    pub name: String,
    pub backend: Backend,
}

/// What the page is told of the adapter.
#[derive(Clone, Debug)]
pub struct AdapterInfo {
    pub adapter: String,
    pub backend: String,
}

/// The `Debug` impl of `wgpu_types::Backend`, which is a derived one: it writes a
/// variant's name.
#[verifier::external_body]
fn backend_debug(backend: Backend) -> (r: String)
    ensures
        r@ == backend.name(),
{
    let backend = match backend {
        Backend::Empty => wgpu_types::Backend::Empty,
        Backend::Vulkan => wgpu_types::Backend::Vulkan,
        Backend::Metal => wgpu_types::Backend::Metal,
        Backend::Dx12 => wgpu_types::Backend::Dx12,
        Backend::Gl => wgpu_types::Backend::Gl,
        Backend::BrowserWebGpu => wgpu_types::Backend::BrowserWebGpu,
    };
    format!("{:?}", backend)
}

/// What to tell the page of the adapter. There is nothing to tell before the engine has
/// one.
pub fn adapter_info(info: Option<&RenderAdapterInfo>) -> (r: Option<AdapterInfo>)
    ensures
        info matches Some(info) ==> (r matches Some(told) && told.adapter@ == info.name@
            && told.backend@ == info.backend.name()),
        info is None ==> r is None,
{
    match info {
        Some(info) => Some(
            AdapterInfo { adapter: info.name.clone(), backend: backend_debug(info.backend) },
        ),
        None => None,
    }
}

/// The names, letter by letter.
pub proof fn law_backend_names()
    ensures
        Backend::Empty.name() == seq!['E', 'm', 'p', 't', 'y'],
        Backend::Vulkan.name() == seq!['V', 'u', 'l', 'k', 'a', 'n'],
        Backend::Metal.name() == seq!['M', 'e', 't', 'a', 'l'],
        Backend::Dx12.name() == seq!['D', 'x', '1', '2'],
        Backend::Gl.name() == seq!['G', 'l'],
        Backend::BrowserWebGpu.name() == seq![
            'B',
            'r',
            'o',
            'w',
            's',
            'e',
            'r',
            'W',
            'e',
            'b',
            'G',
            'p',
            'u',
        ],
{
    reveal_strlit("Empty");
    reveal_strlit("Vulkan");
    reveal_strlit("Metal");
    reveal_strlit("Dx12");
    reveal_strlit("Gl");
    reveal_strlit("BrowserWebGpu");
}

} // verus!
