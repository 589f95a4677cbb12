//! Admission of a compiler's RES1 result against the job it answers: a
//! generated ART1 program, or canonical-ordered diagnostics.
use vstd::prelude::*;
use crate::noun::Noun;
use crate::reader::{Reader, Step, sp_record, sp_field, sp_word, sp_digest, sp_string, sp_list, derefs, Clock, on_time};
use crate::limits::JobLimits;
use crate::schema::{RES1, DIA1};
use crate::digest::{particle, spec_particle};
use crate::job::{Job, ModuleReport, sp_program, program, text_lt, report_matches};
use crate::manifest::Options;
use crate::ordering::str_lt;
use crate::text::text;

verus! {

/// A compiler diagnostic. Diagnostics order by module, span, code and message.
#[derive(Debug)]
pub struct Diagnostic {
    pub module_index: u32,
    pub start_byte: u32,
    pub end_byte: u32,
    pub code: u32,
    pub message: String,
}

/// A diagnostic as read: module index, start, end, code, message.
pub type DiagView = (u32, u32, u32, u32, Seq<char>);

pub open spec fn diag_view(d: Diagnostic) -> DiagView {
    (d.module_index, d.start_byte, d.end_byte, d.code, d.message@)
}

/// `a` sorts strictly before `b`: by module index, start, end, code, then message bytes.
pub open spec fn diag_lt(a: DiagView, b: DiagView) -> bool {
    if a.0 != b.0 {
        a.0 < b.0
    } else if a.1 != b.1 {
        a.1 < b.1
    } else if a.2 != b.2 {
        a.2 < b.2
    } else if a.3 != b.3 {
        a.3 < b.3
    } else {
        text_lt(a.4, b.4)
    }
}

/// What a result is checked against: the job's identity, input profile,
/// module source lengths, entry module index and limits.
pub type JobView = (Seq<u64>, u64, Seq<u32>, u32, JobLimits);

/// Reads one DIA1 record; `overflow` tells whether the limit marker was seen.
pub open spec fn sp_diagnostic(n: Noun, overflow: bool, job: JobView, rem: u32) -> Step<DiagView> {
    let (rec, r1) = sp_record(n, DIA1, 5, rem);
    match rec {
        Err(e) => (Err(e), r1),
        Ok(d) => {
            let (a, r2) = sp_word(d[0], r1);
            match a {
                Err(e) => (Err(e), r2),
                Ok(code) => {
                    let (b, r3) = sp_word(d[1], r2);
                    match b {
                        Err(e) => (Err(e), r3),
                        Ok(module_index) => {
                            let (c, r4) = sp_word(d[2], r3);
                            match c {
                                Err(e) => (Err(e), r4),
                                Ok(start) => {
                                    let (f, r5) = sp_word(d[3], r4);
                                    match f {
                                        Err(e) => (Err(e), r5),
                                        Ok(end) => if module_index >= job.2.len() {
                                            (Err("diagnostic module"@), r5)
                                        } else if !(1 <= code <= 8) || start > end || end > job.2[module_index as int] {
                                            (Err("diagnostic span/code"@), r5)
                                        } else if code == 8 && (overflow || module_index != job.3 || start != 0 || end != 0) {
                                            (Err("diagnostic limit marker"@), r5)
                                        } else {
                                            let (g, r6) = sp_string(d[4], job.4.artifact_bytes, r5);
                                            match g {
                                                Err(e) => (Err(e), r6),
                                                Ok(message) => (Ok((module_index, start, end, code, message)), r6),
                                            }
                                        },
                                    }
                                },
                            }
                        },
                    }
                },
            }
        },
    }
}

/// Reads the DIA1 records `nodes[i..]` after `acc`, each sorting no earlier
/// than the one before; `overflow` tells whether the limit marker was seen.
pub open spec fn sp_diagnostics(nodes: Seq<Noun>, i: nat, acc: Seq<DiagView>, overflow: bool, job: JobView, rem: u32) -> Step<Seq<DiagView>>
    decreases nodes.len() - i,
{
    if i >= nodes.len() {
        (Ok(acc), rem)
    } else {
        let (x, m) = sp_diagnostic(nodes[i as int], overflow, job, rem);
        match x {
            Err(e) => (Err(e), m),
            Ok(v) => if acc.len() > 0 && diag_lt(v, acc.last()) {
                (Err("diagnostic order"@), m)
            } else {
                sp_diagnostics(nodes, i + 1, acc.push(v), overflow || v.3 == 8, job, m)
            },
        }
    }
}

/// A checked result: its status (0 success, 1 compile error), the generated
/// program on success, the diagnostics on a compile error, the allowance left.
pub type ResultView = (u64, Option<Noun>, Seq<DiagView>, u32);

pub open spec fn sp_validate(root: Noun, job: JobView) -> Result<ResultView, Seq<char>> {
    let limits = job.4;
    let (f, m) = sp_record(root, RES1, 3, limits.validation_visits);
    match f {
        Err(e) => Err(e),
        Ok(fields) => {
            let (d, m1) = sp_digest(fields[0], m);
            match d {
                Err(e) => Err(e),
                Ok(identity) => if identity != job.0 {
                    Err("job identity mismatch"@)
                } else {
                    let (s, m2) = sp_field(fields[1], m1);
                    match s {
                        Err(e) => Err(e),
                        Ok(status) => if status == 0 {
                            let (p, m3) = sp_program(fields[2], m2);
                            match p {
                                Err(e) => Err(e),
                                Ok((_, profile)) => if profile != job.1 {
                                    Err("generated artifact profile mismatch"@)
                                } else {
                                    Ok((0, Some(fields[2]), Seq::empty(), m3))
                                },
                            }
                        } else if status == 1 {
                            let (l, m3) = sp_list(fields[2], limits.diagnostics, limits.sequence_length, m2);
                            match l {
                                Err(e) => Err(e),
                                Ok(nodes) => {
                                    let (ds, m4) = sp_diagnostics(nodes, 0, Seq::empty(), false, job, m3);
                                    match ds {
                                        Err(e) => Err(e),
                                        Ok(diags) => if diags.len() == 0 {
                                            Err("empty compile-error result"@)
                                        } else {
                                            Ok((1, None, diags, m4))
                                        },
                                    }
                                },
                            }
                        } else {
                            Err("result status"@)
                        },
                    }
                },
            }
        },
    }
}

/// The job as a result is checked against.
pub open spec fn job_view(j: Job) -> JobView {
    (j.identity@, j.options.input_profile, j.modules@.map_values(|m: ModuleReport| m.source_bytes), j.entry_index, j.limits)
}

/// What a compiler run reports of an admitted job and its result.
pub struct CompilerReport {
    pub package_particle: String,
    pub modules: Vec<ModuleReport>,
    pub entry_module: String,
    pub entry_function: String,
    pub options: Options,
    pub limits: JobLimits,
    pub input_validation_visits: u32,
    pub output_validation_visits: u32,
    pub status: String,
    pub diagnostics: Vec<Diagnostic>,
    pub compiled_particle: Option<String>,
}

/// Whether `a` sorts strictly after `b`.
fn diag_gt(a: &Diagnostic, b: &Diagnostic) -> (r: bool)
    ensures
        r == diag_lt(diag_view(*b), diag_view(*a)),
{
    if a.module_index != b.module_index {
        a.module_index > b.module_index
    } else if a.start_byte != b.start_byte {
        a.start_byte > b.start_byte
    } else if a.end_byte != b.end_byte {
        a.end_byte > b.end_byte
    } else if a.code != b.code {
        a.code > b.code
    } else {
        str_lt(b.message.as_str(), a.message.as_str())
    }
}

/// Reads one DIA1 record; see [`sp_diagnostics`].
#[verifier::rlimit(40)]
fn read_diagnostic(r: &mut Reader, node: &Noun, job: &Job, overflow: bool) -> (res: Result<Diagnostic, String>)
    ensures
        final(r).sequence_limit == old(r).sequence_limit,
        final(r).remaining <= old(r).remaining,
        final(r).clock == old(r).clock,
        on_time(old(r).clock, res) ==> ({
            &&& final(r).remaining == sp_diagnostic(*node, overflow, job_view(*job), old(r).remaining).1
            &&& match sp_diagnostic(*node, overflow, job_view(*job), old(r).remaining).0 {
                Ok(v) => res is Ok && diag_view(res->Ok_0) == v,
                Err(e) => res is Err && res->Err_0@ == e,
            }
        }),
{
    let d = r.record(node, DIA1, 5)?;
    let code = r.word(d[0])?;
    let module_index = r.word(d[1])?;
    let start_byte = r.word(d[2])?;
    let end_byte = r.word(d[3])?;
    if module_index as usize >= job.modules.len() {
        return Err(text("diagnostic module"));
    }
    let source_bytes = job.modules[module_index as usize].source_bytes;
    assert(job_view(*job).2[module_index as int] == source_bytes);
    if !(1 <= code && code <= 8) || start_byte > end_byte || end_byte > source_bytes {
        return Err(text("diagnostic span/code"));
    }
    if code == 8 && (overflow || module_index != job.entry_index || start_byte != 0 || end_byte != 0) {
        return Err(text("diagnostic limit marker"));
    }
    let message = r.string(d[4], job.limits.artifact_bytes)?;
    Ok(Diagnostic { module_index, start_byte, end_byte, code, message })
}

/// The diagnostic views of `ds`.
pub open spec fn diag_views(ds: Seq<Diagnostic>) -> Seq<DiagView> {
    ds.map_values(|d: Diagnostic| diag_view(d))
}

/// Reads the diagnostics of a compile-error result.
#[verifier::rlimit(40)]
fn read_diagnostics(r: &mut Reader, nodes: Vec<&Noun>, job: &Job) -> (res: Result<Vec<Diagnostic>, String>)
    ensures
        final(r).sequence_limit == old(r).sequence_limit,
        final(r).remaining <= old(r).remaining,
        final(r).clock == old(r).clock,
        on_time(old(r).clock, res) ==> ({
            &&& final(r).remaining == sp_diagnostics(derefs(nodes@), 0, Seq::empty(), false, job_view(*job), old(r).remaining).1
            &&& match sp_diagnostics(derefs(nodes@), 0, Seq::empty(), false, job_view(*job), old(r).remaining).0 {
                Ok(ds) => res is Ok && diag_views(res->Ok_0@) == ds,
                Err(e) => res is Err && res->Err_0@ == e,
            }
        }),
{
    let ghost all = derefs(nodes@);
    let ghost m0 = r.remaining;
    let mut diagnostics: Vec<Diagnostic> = Vec::new();
    let mut overflow = false;
    let mut i: usize = 0;
    assert(diag_views(diagnostics@) =~= Seq::<DiagView>::empty());
    while i < nodes.len()
        invariant
            i <= nodes@.len(),
            all == derefs(nodes@),
            sp_diagnostics(all, 0, Seq::empty(), false, job_view(*job), m0)
                == sp_diagnostics(all, i as nat, diag_views(diagnostics@), overflow, job_view(*job), r.remaining),
            r.sequence_limit == old(r).sequence_limit,
            r.clock == old(r).clock,
            r.remaining <= m0,
            m0 == old(r).remaining,
        decreases nodes@.len() - i,
    {
        assert(all[i as int] == *nodes@[i as int]);
        let d = read_diagnostic(r, nodes[i], job, overflow)?;
        let out_of_order = if diagnostics.len() > 0 {
            diag_gt(&diagnostics[diagnostics.len() - 1], &d)
        } else {
            false
        };
        proof {
            if diagnostics@.len() > 0 {
                assert(diag_views(diagnostics@).last() == diag_view(diagnostics@[diagnostics@.len() - 1]));
            }
        }
        if out_of_order {
            return Err(text("diagnostic order"));
        }
        let ghost before = diag_views(diagnostics@);
        let ghost v = diag_view(d);
        overflow = overflow || d.code == 8;
        diagnostics.push(d);
        assert(diag_views(diagnostics@) =~= before.push(v));
        i = i + 1;
    }
    Ok(diagnostics)
}

/// The report matches the job it answers and the result as read.
pub open spec fn report_matches_result(rep: CompilerReport, j: Job, v: ResultView) -> bool {
    &&& rep.package_particle == j.package_particle
    &&& rep.modules@ == j.modules@
    &&& rep.entry_module == j.entry_module
    &&& rep.entry_function == j.entry_function
    &&& rep.options == j.options
    &&& rep.limits == j.limits
    &&& rep.input_validation_visits == j.input_visits
    &&& rep.output_validation_visits == j.limits.validation_visits - v.3
    &&& rep.status@ == if v.0 == 0 { "success"@ } else { "compile_error"@ }
    &&& diag_views(rep.diagnostics@) == v.2
    &&& match v.1 {
        Some(p) => rep.compiled_particle matches Some(s) && s@ == spec_particle(p),
        None => rep.compiled_particle is None,
    }
}

/// Checks a compiler's RES1 result against the job it answers, after its
/// encoded size was checked under the job's limits: the report, and on
/// success the generated program for its caller to encode.
#[verifier::rlimit(40)]
#[verifier::loop_isolation(false)]
pub fn validate<'a>(root: &'a Noun, job: Job, clock: Option<Clock>) -> (res: Result<(CompilerReport, Option<&'a Noun>), String>)
    ensures
        on_time(clock, res) ==> match sp_validate(*root, job_view(job)) {
            Ok(v) => res is Ok && report_matches_result(res->Ok_0.0, job, v)
                && match v.1 {
                    Some(p) => res->Ok_0.1 matches Some(q) && *q == p,
                    None => res->Ok_0.1 is None,
                },
            Err(e) => res is Err && res->Err_0@ == e,
        },
{
    let ghost jv = job_view(job);
    let mut r = Reader { remaining: job.limits.validation_visits, sequence_limit: job.limits.sequence_length, clock };
    let fields = r.record(root, RES1, 3)?;
    let identity = r.digest(fields[0])?;
    if identity[0] != job.identity[0] || identity[1] != job.identity[1] || identity[2] != job.identity[2]
        || identity[3] != job.identity[3] {
        assert(identity@ != job.identity@);
        return Err(text("job identity mismatch"));
    }
    assert(identity@ =~= job.identity@);
    let status = r.field(fields[1])?;
    let mut diagnostics: Vec<Diagnostic> = Vec::new();
    let (status_text, compiled_particle, compiled) = if status == 0 {
        let (_, profile) = program(&mut r, fields[2])?;
        if profile != job.options.input_profile {
            return Err(text("generated artifact profile mismatch"));
        }
        (text("success"), Some(particle(fields[2])), Some(fields[2]))
    } else if status == 1 {
        let nodes = r.list(fields[2], job.limits.diagnostics)?;
        diagnostics = read_diagnostics(&mut r, nodes, &job)?;
        if diagnostics.len() == 0 {
            return Err(text("empty compile-error result"));
        }
        (text("compile_error"), None, None)
    } else {
        return Err(text("result status"));
    };
    assert(status == 0 ==> diag_views(diagnostics@) =~= Seq::<DiagView>::empty());
    let output_validation_visits = job.limits.validation_visits - r.remaining;
    let Job { identity: _, package_particle, modules, entry_index: _, entry_module, entry_function, options, limits, input_visits } = job;
    let report = CompilerReport {
        package_particle,
        modules,
        entry_module,
        entry_function,
        options,
        limits,
        input_validation_visits: input_visits,
        output_validation_visits,
        status: status_text,
        diagnostics,
        compiled_particle,
    };
    Ok((report, compiled))
}

} // verus!

verus! {

/// Diagnostics are ordered lexicographically by module index, then start
/// byte, end byte, code, and message bytes: the first field that differs
/// decides, and a diagnostic never sorts before itself. So diagnostics of
/// different modules come in module order whatever their spans.
pub proof fn law_diagnostics_order_by_module_first(a: DiagView, b: DiagView)
    ensures
        a.0 < b.0 ==> diag_lt(a, b) && !diag_lt(b, a),
        a.0 == b.0 && a.1 < b.1 ==> diag_lt(a, b) && !diag_lt(b, a),
        a.0 == b.0 && a.1 == b.1 && a.2 < b.2 ==> diag_lt(a, b) && !diag_lt(b, a),
        a.0 == b.0 && a.1 == b.1 && a.2 == b.2 && a.3 < b.3 ==> diag_lt(a, b) && !diag_lt(b, a),
        a.0 == b.0 && a.1 == b.1 && a.2 == b.2 && a.3 == b.3 && text_lt(a.4, b.4) ==> diag_lt(a, b) && !diag_lt(b, a),
        !diag_lt(a, a),
{
    crate::ordering::lemma_lex_total(vstd::utf8::encode_utf8(a.4), vstd::utf8::encode_utf8(b.4));
    crate::ordering::lemma_lex_total(vstd::utf8::encode_utf8(a.4), vstd::utf8::encode_utf8(a.4));
}

} // verus!
