//! Read classification: the accept/reject policy applied to every record,
//! and the fixed flag sets that the policy is built from.

use vstd::prelude::*;

verus! {

/// Flags that exclude a record from every tally: secondary alignment (256),
/// quality-check failed (512) and supplementary alignment (2048).
pub const FLAGS_ALWAYS_FILTERED: u16 = 2816;

/// Flag bit for a read paired in proper orientation.
pub const FLAG_PROPER_PAIR: u16 = 2;

/// Flag bit for an unmapped read.
pub const FLAG_UNMAPPED: u16 = 4;

/// Flag bits that only make sense for mapped reads: paired (1),
/// proper pair (2), unmapped (4), mate unmapped (8), reverse strand (16)
/// and mate reverse strand (32).
pub const FLAGS_MAPPING_RELATED: u16 = 63;

/// Run configuration: the two input paths and the filter policy.
#[derive(Debug, Clone)]
pub struct ProgramOptions {
    pub bamfile: String,
    pub gtf: String,
    pub minmapqual: u8,
    pub required_flag: u16,
    pub filtered_flag: u16,
}

/// Outcome of classifying one read against the filter policy.
#[derive(Debug, Clone, Copy, PartialEq, Eq, Structural)]
pub enum ReadCheckOutcome {
    Accept,
    Reject,
}

/// A read is accepted exactly when its mapping quality reaches the
/// minimum, all required flag bits are set, and no filtered flag bit is.
pub open spec fn accepts(args: ProgramOptions, mapq: u8, flags: u16) -> bool {
    &&& mapq >= args.minmapqual
    &&& flags & args.required_flag == args.required_flag
    &&& flags & args.filtered_flag == 0
}

/// Records carrying any of the always-excluded flags take part in no tally.
pub open spec fn always_excluded(flags: u16) -> bool {
    flags & FLAGS_ALWAYS_FILTERED != 0
}

/// Classify one read's mapping quality and flags against the policy.
pub fn check_read(mapq: u8, flags: u16, args: &ProgramOptions) -> (r: ReadCheckOutcome)
    ensures
        r == ReadCheckOutcome::Accept <==> accepts(*args, mapq, flags),
{
    if mapq < args.minmapqual {
        return ReadCheckOutcome::Reject;
    }
    if flags & args.required_flag != args.required_flag || flags & args.filtered_flag != 0 {
        return ReadCheckOutcome::Reject;
    }
    ReadCheckOutcome::Accept
}

/// Test whether a record is excluded from every tally.
pub fn is_always_excluded(flags: u16) -> (r: bool)
    ensures
        r == always_excluded(flags),
{
    flags & FLAGS_ALWAYS_FILTERED != 0
}

/// The policy used for the unmapped-read tally, derived from the base
/// policy: no mapping-quality floor, the proper-pair requirement dropped,
/// the unmapped bit required, and all mapping-related filter bits cleared.
pub open spec fn unmapped_policy(args: ProgramOptions) -> ProgramOptions {
    ProgramOptions {
        minmapqual: 0,
        required_flag: (args.required_flag & !FLAG_PROPER_PAIR) | FLAG_UNMAPPED,
        filtered_flag: args.filtered_flag & !FLAGS_MAPPING_RELATED,
        ..args
    }
}

/// Derive the unmapped-read policy from the base policy.
pub fn unmapped_options(args: &ProgramOptions) -> (r: ProgramOptions)
    ensures
        r == unmapped_policy(*args),
{
    ProgramOptions {
        bamfile: args.bamfile.clone(),
        gtf: args.gtf.clone(),
        minmapqual: 0,
        required_flag: (args.required_flag & !FLAG_PROPER_PAIR) | FLAG_UNMAPPED,
        filtered_flag: args.filtered_flag & !FLAGS_MAPPING_RELATED,
    }
}

} // verus!
