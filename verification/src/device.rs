//! What the device is, and how its pipelines are built.

use vstd::prelude::*;

verus! {

/// The class of a device, by the last letter of its architecture's name.
#[derive(Debug, Clone, Copy, PartialEq, Eq, Hash, Structural)]
pub enum MetalDeviceType {
    /// A small device: `p`.
    Phone,
    /// A base or pro device: `g`.
    BasePro,
    /// A max device: `s`.
    Max,
    /// An ultra device: `d`.
    Ultra,
    /// Any other.
    Medium,
}

/// The class that an architecture's name stands for.
pub open spec fn class_of(architecture: Seq<char>) -> MetalDeviceType {
    if architecture.len() == 0 {
        MetalDeviceType::Medium
    } else if architecture.last() == 'p' {
        MetalDeviceType::Phone
    } else if architecture.last() == 'g' {
        MetalDeviceType::BasePro
    } else if architecture.last() == 's' {
        MetalDeviceType::Max
    } else if architecture.last() == 'd' {
        MetalDeviceType::Ultra
    } else {
        MetalDeviceType::Medium
    }
}

/// The class of a device with this architecture, such as `applegpu_g13g`.
pub fn device_type(architecture: &str) -> (t: MetalDeviceType)
    ensures
        t == class_of(architecture@),
{
    let n: usize = architecture.unicode_len();
    if n == 0 {
        return MetalDeviceType::Medium;
    }
    match architecture.get_char(n - 1) {
        'p' => MetalDeviceType::Phone,
        'g' => MetalDeviceType::BasePro,
        's' => MetalDeviceType::Max,
        'd' => MetalDeviceType::Ultra,
        _ => MetalDeviceType::Medium,
    }
}

/// Whether pipelines are built so that an indirect command buffer can hold them, and whether any
/// was built yet.
#[derive(Debug, Clone, Copy, PartialEq, Eq, Structural)]
pub struct PipelineSupport {
    pub icb: bool,
    pub built: bool,
}

impl PipelineSupport {
    /// Off, with no pipeline built.
    pub fn new() -> (s: Self)
        ensures
            s == (PipelineSupport { icb: false, built: false }),
    {
        PipelineSupport { icb: false, built: false }
    }
}

/// Why the setting cannot change any more.
pub open spec fn too_late() -> Seq<char> {
    "supportIndirectCommandBuffers must be selected before any pipeline is built: pipelines are cached per (Source, name, constants) and the ones already built would keep the old setting, which is DESIGN.md §3.7d's segfault rather than a wrong answer"@
}

/// Choose whether the pipelines built from here on support indirect command buffers. Pipelines are
/// kept once built, so the choice stands from the first one on: changing it then is refused, and
/// repeating it is not.
pub fn set_pipelines_support_icb(support: &mut PipelineSupport, enabled: bool) -> (r: Result<
    (),
    String,
>)
    ensures
        old(support).built && old(support).icb != enabled ==> *final(support) == *old(support)
            && r is Err && r->Err_0@ == too_late(),
        !(old(support).built && old(support).icb != enabled) ==> r is Ok && *final(support) == (
        PipelineSupport { icb: enabled, ..*old(support) }),
{
    if support.built && support.icb != enabled {
        return Err(
            "supportIndirectCommandBuffers must be selected before any pipeline is built: pipelines are cached per (Source, name, constants) and the ones already built would keep the old setting, which is DESIGN.md §3.7d's segfault rather than a wrong answer".to_owned(),
        );
    }
    support.icb = enabled;
    Ok(())
}

/// Whether new pipelines support indirect command buffers.
pub fn pipelines_support_icb(support: &PipelineSupport) -> (b: bool)
    ensures
        b == support.icb,
{
    support.icb
}

/// Record that a pipeline exists.
pub fn note_pipeline_built(support: &mut PipelineSupport)
    ensures
        *final(support) == (PipelineSupport { built: true, ..*old(support) }),
{
    support.built = true;
}

/// Only the last letter of an architecture's name tells its class.
pub proof fn law_the_last_letter_tells_the_class(name: Seq<char>, c: char)
    ensures
        class_of(name.push(c)) is Phone <==> c == 'p',
        class_of(name.push(c)) is BasePro <==> c == 'g',
        class_of(name.push(c)) is Max <==> c == 's',
        class_of(name.push(c)) is Ultra <==> c == 'd',
        class_of(Seq::empty()) is Medium,
{
}

} // verus!
