use vstd::prelude::*;

verus! {

/// Version token handed to the embedded runtime when a session starts.
/// `Invalid` stands for any unrecognised version request; the runtime
/// layer rejects it when a session is started.
#[derive(Clone, Copy, PartialEq, Eq, Structural, Debug)]
pub enum JvmVersion {
    V1,
    V2,
    V4,
    V6,
    V8,
    Invalid,
}

/// Build configuration: root directories, classpath, pre/post command
/// lists, compiler flags, and the options of the embedded runtime.
#[allow(non_camel_case_types)]
pub struct CONFIG {
    pub pre: Vec<String>,
    pub bin: String,
    pub src: String,
    pub test: String,
    pub lib: String,
    pub classpath: String,
    pub post: Vec<String>,
    pub comp_flags: String,
    pub run_args: Vec<String>,
    pub cache: String,
    pub threads: usize,
    pub jvm_version: JvmVersion,
    pub jvm_options: Vec<String>,
}

} // verus!
