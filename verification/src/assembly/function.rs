use vstd::prelude::*;

verus! {

/// What the processing of one `GLOBAL_ASM` block yields for the post-processing step.
#[derive(Debug, Clone, Default)]
pub struct Function {
    /// Labels defined in the block's `.text`.
    pub text_glabels: Vec<String>,
    /// The block's lines outside `.late_rodata`.
    pub asm_conts: Vec<String>,
    /// The data directives of `.late_rodata` other than jump tables.
    pub late_rodata_dummy_bytes: Vec<String>,
    /// The size of the `.word` jump table entries in `.late_rodata`.
    pub jtbl_rodata_size: usize,
    /// The remaining `.late_rodata` lines.
    pub late_rodata_asm_conts: Vec<String>,
    /// Where the block comes from, for messages.
    pub fn_desc: String,
    /// Per section, the name and size of the placeholder that reserves the block's data.
    pub data: Vec<(String, (String, usize))>,
}

} // verus!
