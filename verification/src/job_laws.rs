//! Laws of jobs and results: a job encoded from a valid manifest is admitted
//! and reads back what was packed, packing does not depend on how the manifest
//! was written, and what admission and validation accept is well formed.
use vstd::prelude::*;
use vstd::utf8::encode_utf8;
use crate::noun::{Noun, P, canonical};
use crate::reader::{
    sp_string, sp_list, sp_bytes, sp_record, sp_field, sp_digest, digest_limbs, law_bytes_read_back,
    law_list_read_back, law_record_read_back, law_string_read_back,
};
use crate::schema::{two_pow, tree_height, word_count, spec_wrap, spec_words, spec_record, JOB1, LIM1, OPT1, PKG1, MOD1, SEQ1, BYT1, RES1};
use crate::limits::{JobLimits, RunLimits, all_admitted};
use crate::names::{spec_identifier, spec_module_path, spec_label};
use crate::manifest::{Manifest, ModuleFile, Options, distinct_paths, lemma_key_strict};
use crate::ordering::{SortKey, sorted_by_key, lex_lt, lex_le, lemma_lex_total, lemma_lex_trans};
use crate::digest::{noun_digest, spec_hash_data, canonical_limbs};
use crate::job_result::{DiagView, JobView, diag_lt, sp_diagnostic, sp_diagnostics, sp_validate};
use crate::job::{
    sp_admit_head, sp_admit_body, sp_field_values, sp_flags, sp_options, sp_module, sp_modules, find_module,
    text_noun, bytes_noun, module_noun, atoms, spec_job_noun, spec_package, spec_options_noun, text_lt,
    ModuleView, views,
};

verus! {

/// Visits that reading a byte string takes at most.
pub open spec fn bytes_cost(b: Seq<u8>) -> int {
    (6 + 2 * two_pow(tree_height(word_count(b.len())))) as int
}

/// Visits that reading a text takes at most.
pub open spec fn text_cost(s: Seq<char>) -> int {
    bytes_cost(encode_utf8(s))
}

/// Visits that reading the frame of a sequence of `n` values takes at most.
pub open spec fn list_cost(n: nat) -> int {
    (6 + 2 * two_pow(tree_height(n))) as int
}

/// Visits that reading the flags `flags[i..]` takes at most.
pub open spec fn flags_cost(flags: Seq<Seq<char>>, i: nat) -> int
    decreases flags.len() - i,
{
    if i >= flags.len() { 0 } else { text_cost(flags[i as int]) + flags_cost(flags, i + 1) }
}

/// Visits that reading one packed module takes at most.
pub open spec fn module_cost(m: ModuleFile, source: Seq<u8>) -> int {
    12 + text_cost(m.logical_path@) + text_cost(m.origin_name@) + text_cost(m.origin_version@) + bytes_cost(source)
}

/// Visits that reading the modules `i..` takes at most.
pub open spec fn modules_cost(ms: Seq<ModuleFile>, sources: Seq<Seq<u8>>, i: nat) -> int
    decreases ms.len() - i,
{
    if i >= ms.len() { 0 } else { module_cost(ms[i as int], sources[i as int]) + modules_cost(ms, sources, i + 1) }
}

/// Total source length of the modules `i..`.
pub open spec fn source_total(sources: Seq<Seq<u8>>, i: nat, n: nat) -> int
    decreases n - i,
{
    if i >= n { 0 } else { sources[i as int].len() + source_total(sources, i + 1, n) }
}

/// The flag texts of the options.
pub open spec fn flag_texts(o: Options) -> Seq<Seq<char>> {
    Seq::new(o.cfg_flags@.len(), |i: int| o.cfg_flags@[i]@)
}

/// Visits that admitting the body of a packed job takes at most.
pub open spec fn body_cost(m: Manifest, sources: Seq<Seq<u8>>) -> int {
    text_cost(m.entry_module@) + text_cost(m.entry_function@) + 18 + list_cost(m.options.cfg_flags@.len())
        + flags_cost(flag_texts(m.options), 0) + 6 + list_cost(m.modules@.len())
        + modules_cost(m.modules@, sources, 0)
}

/// Visits that admitting the head of a packed job takes.
pub open spec fn head_cost() -> int {
    63
}

/// A manifest that packing accepts: admitted limits, valid and canonically
/// ordered names, supported options, sources within the source allowance,
/// and every text within its 255-byte field.
pub open spec fn packable(m: Manifest, sources: Seq<Seq<u8>>, host: RunLimits) -> bool {
    let ms = m.modules@;
    let fl = flag_texts(m.options);
    &&& sources.len() == ms.len()
    &&& all_admitted(m.limits.spec_values(), host.caps())
    &&& ms.len() <= m.limits.modules && ms.len() <= m.limits.sequence_length
    &&& spec_identifier(m.entry_module@) && spec_identifier(m.entry_function@)
    &&& encode_utf8(m.entry_module@).len() <= 255 && encode_utf8(m.entry_function@).len() <= 255
    &&& m.options.target == 0 && m.options.input_profile <= 1
    &&& m.options.input_profile == m.options.output_profile && m.options.optimization == 0
    &&& fl.len() <= m.limits.sequence_length
    &&& forall|i: int| 0 <= i < fl.len() ==> spec_identifier(#[trigger] fl[i]) && encode_utf8(fl[i]).len() <= 255
    &&& forall|i: int| 0 < i < fl.len() ==> text_lt(fl[i - 1], #[trigger] fl[i])
    &&& forall|i: int| 0 <= i < ms.len() ==> {
        &&& spec_module_path((#[trigger] ms[i]).logical_path@)
        &&& spec_label(ms[i].origin_name@) && spec_label(ms[i].origin_version@)
        &&& encode_utf8(ms[i].logical_path@).len() <= 255
        &&& encode_utf8(ms[i].origin_name@).len() <= 255
        &&& encode_utf8(ms[i].origin_version@).len() <= 255
    }
    &&& forall|i: int| 0 < i < ms.len() ==> text_lt(ms[i - 1].logical_path@, (#[trigger] ms[i]).logical_path@)
    &&& source_total(sources, 0, ms.len()) <= m.limits.source_bytes
    &&& exists|i: int| 0 <= i < ms.len() && #[trigger] ms[i].logical_path@ == m.entry_module@
}

/// What admission reads of a packed module.
pub open spec fn packed_view(m: ModuleFile, source: Seq<u8>) -> ModuleView {
    (m.logical_path@, m.origin_name@, m.origin_version@, source.len() as u32, module_noun(m, source), bytes_noun(source))
}

proof fn lemma_text_read(s: Seq<char>, limit: u32, rem: u32)
    requires
        encode_utf8(s).len() <= limit,
        rem >= text_cost(s),
    ensures
        sp_string(text_noun(s), limit, rem).0 == Ok::<Seq<char>, Seq<char>>(s),
        sp_string(text_noun(s), limit, rem).1 >= rem - text_cost(s),
{
    law_string_read_back(s, limit, rem);
}

proof fn lemma_flags_read(fl: Seq<Seq<char>>, i: nat, rem: u32)
    requires
        i <= fl.len(),
        rem >= flags_cost(fl, i),
        forall|k: int| 0 <= k < fl.len() ==> spec_identifier(#[trigger] fl[k]) && encode_utf8(fl[k]).len() <= 255,
        forall|k: int| 0 < k < fl.len() ==> text_lt(fl[k - 1], #[trigger] fl[k]),
    ensures
        sp_flags(Seq::new(fl.len(), |k: int| text_noun(fl[k])), i, fl.take(i as int), rem).0
            == Ok::<Seq<Seq<char>>, Seq<char>>(fl),
        sp_flags(Seq::new(fl.len(), |k: int| text_noun(fl[k])), i, fl.take(i as int), rem).1 >= rem - flags_cost(fl, i),
    decreases fl.len() - i,
{
    let nodes = Seq::new(fl.len(), |k: int| text_noun(fl[k]));
    if i == fl.len() {
        assert(fl.take(i as int) =~= fl);
    } else {
        let f = fl[i as int];
        assert(spec_identifier(f) && encode_utf8(f).len() <= 255);
        assert(nodes[i as int] == text_noun(f));
        lemma_flags_cost_nonneg(fl, i + 1);
        lemma_text_read(f, 255, rem);
        let m = sp_string(text_noun(f), 255, rem).1;
        if i > 0 {
            assert(fl.take(i as int).last() == fl[i - 1]);
            assert(text_lt(fl[i - 1], fl[i as int]));
        }
        assert(fl.take(i as int).push(f) =~= fl.take(i as int + 1));
        lemma_flags_read(fl, i + 1, m);
    }
}

proof fn lemma_flags_cost_nonneg(fl: Seq<Seq<char>>, i: nat)
    ensures
        flags_cost(fl, i) >= 0,
    decreases fl.len() - i,
{
    if i < fl.len() {
        lemma_flags_cost_nonneg(fl, i + 1);
        crate::schema::lemma_two_pow_pos(tree_height(word_count(encode_utf8(fl[i as int]).len())));
    }
}

/// The MOD1 nouns of the modules with their sources.
pub open spec fn module_nouns(ms: Seq<ModuleFile>, sources: Seq<Seq<u8>>) -> Seq<Noun> {
    Seq::new(ms.len(), |k: int| module_noun(ms[k], sources[k]))
}

/// What admission reads of the first `i` packed modules.
pub open spec fn packed_views(ms: Seq<ModuleFile>, sources: Seq<Seq<u8>>, i: int) -> Seq<ModuleView> {
    Seq::new(i as nat, |k: int| packed_view(ms[k], sources[k]))
}

/// The modules are valid, fit their fields, and are in strictly increasing path order.
pub open spec fn modules_ok(ms: Seq<ModuleFile>) -> bool {
    &&& forall|i: int| 0 <= i < ms.len() ==> {
        &&& spec_module_path((#[trigger] ms[i]).logical_path@)
        &&& spec_label(ms[i].origin_name@) && spec_label(ms[i].origin_version@)
        &&& encode_utf8(ms[i].logical_path@).len() <= 255
        &&& encode_utf8(ms[i].origin_name@).len() <= 255
        &&& encode_utf8(ms[i].origin_version@).len() <= 255
    }
    &&& forall|i: int| 0 < i < ms.len() ==> text_lt(ms[i - 1].logical_path@, (#[trigger] ms[i]).logical_path@)
}

proof fn lemma_cost_parts_nonneg(m: ModuleFile, source: Seq<u8>)
    ensures
        text_cost(m.logical_path@) >= 0,
        text_cost(m.origin_name@) >= 0,
        text_cost(m.origin_version@) >= 0,
        bytes_cost(source) >= 0,
{
}

proof fn lemma_modules_cost_nonneg(ms: Seq<ModuleFile>, sources: Seq<Seq<u8>>, i: nat)
    ensures
        modules_cost(ms, sources, i) >= 0,
    decreases ms.len() - i,
{
    if i < ms.len() {
        lemma_modules_cost_nonneg(ms, sources, i + 1);
    }
}

proof fn lemma_source_total_nonneg(sources: Seq<Seq<u8>>, i: nat, n: nat)
    ensures
        source_total(sources, i, n) >= 0,
    decreases n - i,
{
    if i < n {
        lemma_source_total_nonneg(sources, i + 1, n);
    }
}

/// Reading one packed module gives its view.
#[verifier::rlimit(40)]
proof fn lemma_module_read(m: ModuleFile, source: Seq<u8>, prev: Option<Seq<char>>, allowance: u32, rem: u32)
    requires
        spec_module_path(m.logical_path@),
        spec_label(m.origin_name@) && spec_label(m.origin_version@),
        encode_utf8(m.logical_path@).len() <= 255,
        encode_utf8(m.origin_name@).len() <= 255,
        encode_utf8(m.origin_version@).len() <= 255,
        prev matches Some(q) ==> text_lt(q, m.logical_path@),
        source.len() <= allowance,
        rem >= module_cost(m, source),
    ensures
        sp_module(module_noun(m, source), prev, allowance, rem).0 == Ok::<ModuleView, Seq<char>>(packed_view(m, source)),
        sp_module(module_noun(m, source), prev, allowance, rem).1 >= rem - module_cost(m, source),
{
    let fields = seq![text_noun(m.logical_path@), text_noun(m.origin_name@), text_noun(m.origin_version@), bytes_noun(source)];
    lemma_cost_parts_nonneg(m, source);
    law_record_read_back(MOD1, fields, rem);
    let r1 = (rem - 12) as u32;
    lemma_text_read(m.logical_path@, 255, r1);
    let r2 = sp_string(text_noun(m.logical_path@), 255, r1).1;
    lemma_text_read(m.origin_name@, 255, r2);
    let r3 = sp_string(text_noun(m.origin_name@), 255, r2).1;
    lemma_text_read(m.origin_version@, 255, r3);
    let r4 = sp_string(text_noun(m.origin_version@), 255, r3).1;
    law_bytes_read_back(source, allowance, r4);
}

/// Reading the packed modules `i..` after the first `i` gives all of them.
#[verifier::rlimit(40)]
proof fn lemma_modules_read(ms: Seq<ModuleFile>, sources: Seq<Seq<u8>>, i: nat, allowance: u32, rem: u32)
    requires
        i <= ms.len(),
        sources.len() == ms.len(),
        modules_ok(ms),
        allowance >= source_total(sources, i, ms.len()),
        rem >= modules_cost(ms, sources, i),
    ensures
        sp_modules(module_nouns(ms, sources), i, packed_views(ms, sources, i as int), allowance, rem).0
            == Ok::<Seq<ModuleView>, Seq<char>>(packed_views(ms, sources, ms.len() as int)),
        sp_modules(module_nouns(ms, sources), i, packed_views(ms, sources, i as int), allowance, rem).1
            >= rem - modules_cost(ms, sources, i),
    decreases ms.len() - i,
{
    let nodes = module_nouns(ms, sources);
    if i == ms.len() {
        assert(packed_views(ms, sources, i as int) =~= packed_views(ms, sources, ms.len() as int));
    } else {
        let m = ms[i as int];
        let src = sources[i as int];
        let acc = packed_views(ms, sources, i as int);
        assert(nodes[i as int] == module_noun(m, src));
        lemma_modules_cost_nonneg(ms, sources, i + 1);
        lemma_source_total_nonneg(sources, i + 1, ms.len());
        let prev = if acc.len() > 0 { Some(acc.last().0) } else { None::<Seq<char>> };
        if i > 0 {
            assert(acc.last() == packed_view(ms[i - 1], sources[i - 1]));
            assert(text_lt(ms[i - 1].logical_path@, ms[i as int].logical_path@));
        }
        lemma_module_read(m, src, prev, allowance, rem);
        let next = sp_module(nodes[i as int], prev, allowance, rem).1;
        assert(acc.push(packed_view(m, src)) =~= packed_views(ms, sources, i as int + 1));
        lemma_modules_read(ms, sources, i + 1, (allowance - src.len()) as u32, next);
    }
}

proof fn lemma_field_values(vs: Seq<u64>, i: nat, rem: u32)
    requires
        i <= vs.len(),
        forall|k: int| 0 <= k < vs.len() ==> #[trigger] vs[k] < P,
        rem >= vs.len() - i,
    ensures
        sp_field_values(atoms(vs), i, vs.take(i as int), rem) == (Ok::<Seq<u64>, Seq<char>>(vs), (rem - (vs.len() - i)) as u32),
    decreases vs.len() - i,
{
    if i == vs.len() {
        assert(vs.take(i as int) =~= vs);
    } else {
        assert(atoms(vs)[i as int] == Noun::Atom(vs[i as int]));
        assert(canonical(vs[i as int]) == vs[i as int]);
        assert(vs.take(i as int).push(vs[i as int]) =~= vs.take(i as int + 1));
        lemma_field_values(vs, i + 1, (rem - 1) as u32);
    }
}

proof fn lemma_find_module(mods: Seq<ModuleView>, name: Seq<char>, i: nat)
    requires
        i <= mods.len(),
        exists|k: int| i <= k < mods.len() && #[trigger] mods[k].0 == name,
    ensures
        find_module(mods, name, i) matches Some(j) && i <= j < mods.len() && mods[j as int].0 == name,
    decreases mods.len() - i,
{
    if mods[i as int].0 != name {
        let k = choose|k: int| i <= k < mods.len() && #[trigger] mods[k].0 == name;
        assert(k != i);
        lemma_find_module(mods, name, i + 1);
    }
}

/// The six JOB1 fields of a packed job.
pub open spec fn job_fields(d: Seq<u64>, m: Manifest, sources: Seq<Seq<u8>>) -> Seq<Noun> {
    seq![
        spec_hash_data(d),
        spec_package(m, sources),
        text_noun(m.entry_module@),
        text_noun(m.entry_function@),
        spec_options_noun(m.options),
        spec_record(LIM1, atoms(m.limits.spec_values())),
    ]
}

#[verifier::rlimit(40)]
proof fn lemma_head(compiler: Noun, m: Manifest, sources: Seq<Seq<u8>>, host: RunLimits, program_visits: u32)
    requires
        host.valid(),
        all_admitted(m.limits.spec_values(), host.caps()),
        canonical_limbs(noun_digest(compiler)),
        host.compiler.validation_visits >= program_visits + head_cost(),
        m.limits.validation_visits >= program_visits + head_cost(),
    ensures
        sp_admit_head(spec_job_noun(noun_digest(compiler), m, sources), compiler, host, program_visits)
            == Ok::<(Seq<Noun>, JobLimits, u32, u32), Seq<char>>((
                job_fields(noun_digest(compiler), m, sources),
                m.limits,
                (m.limits.validation_visits - (program_visits + head_cost())) as u32,
                m.limits.sequence_length,
            )),
{
    let d = noun_digest(compiler);
    let total = host.compiler.validation_visits;
    let rem0 = (total - program_visits) as u32;
    let fields = job_fields(d, m, sources);
    law_record_read_back(JOB1, fields, rem0);
    let m1 = (rem0 - 16) as u32;
    assert(digest_limbs(spec_hash_data(d)) == Some(seq![canonical(d[0]), canonical(d[1]), canonical(d[2]), canonical(d[3])]));
    assert(seq![canonical(d[0]), canonical(d[1]), canonical(d[2]), canonical(d[3])] =~= d);
    let m2 = (m1 - 10) as u32;
    let values = m.limits.spec_values();
    law_record_read_back(LIM1, atoms(values), m2);
    let m3 = (m2 - 26) as u32;
    assert(host.budget <= 100000000);
    assert forall|k: int| 0 <= k < values.len() implies #[trigger] values[k] < P by {
        assert(crate::limits::field_admitted(k, values[k] as int, host.caps()[k]));
        if k == 8 {
            assert(host.caps()[8] == host.budget as int);
        }
    }
    lemma_field_values(values, 0, m3);
    assert(values.take(0) =~= Seq::<u64>::empty());
    JobLimits::lemma_from_values(m.limits);
}

#[verifier::rlimit(40)]
proof fn lemma_options(o: Options, limits: JobLimits, rem: u32)
    requires
        o.target == 0 && o.input_profile <= 1 && o.input_profile == o.output_profile && o.optimization == 0,
        flag_texts(o).len() <= limits.sequence_length,
        forall|i: int| 0 <= i < flag_texts(o).len() ==> spec_identifier(#[trigger] flag_texts(o)[i])
            && encode_utf8(flag_texts(o)[i]).len() <= 255,
        forall|i: int| 0 < i < flag_texts(o).len() ==> text_lt(flag_texts(o)[i - 1], #[trigger] flag_texts(o)[i]),
        rem >= 18 + list_cost(o.cfg_flags@.len()) + flags_cost(flag_texts(o), 0),
    ensures
        sp_options(spec_options_noun(o), limits.sequence_length, limits.sequence_length, rem).0
            == Ok::<(u64, u64, u64, u64, Seq<Seq<char>>), Seq<char>>((o.target, o.input_profile, o.output_profile, o.optimization, flag_texts(o))),
        sp_options(spec_options_noun(o), limits.sequence_length, limits.sequence_length, rem).1
            >= rem - (18 + list_cost(o.cfg_flags@.len()) + flags_cost(flag_texts(o), 0)),
{
    let fl = flag_texts(o);
    lemma_flags_cost_nonneg(fl, 0);
    crate::schema::lemma_two_pow_pos(tree_height(fl.len()));
    let flag_nodes = Seq::new(fl.len(), |k: int| text_noun(fl[k]));
    let opt_fields = seq![Noun::Atom(o.target), Noun::Atom(o.input_profile), Noun::Atom(o.output_profile), Noun::Atom(o.optimization),
        spec_wrap(SEQ1, flag_nodes.len() as u64, flag_nodes)];
    assert(spec_options_noun(o) == spec_record(OPT1, opt_fields)) by {
        assert(Seq::new(o.cfg_flags@.len(), |i: int| text_noun(o.cfg_flags@[i]@)) =~= flag_nodes);
    }
    law_record_read_back(OPT1, opt_fields, rem);
    let b4 = (rem - 18) as u32;
    law_list_read_back(flag_nodes, limits.sequence_length, limits.sequence_length, b4);
    let b5 = sp_list(spec_wrap(SEQ1, flag_nodes.len() as u64, flag_nodes), limits.sequence_length, limits.sequence_length, b4).1;
    lemma_flags_read(fl, 0, b5);
    assert(fl.take(0) =~= Seq::<Seq<char>>::empty());
}

#[verifier::rlimit(40)]
proof fn lemma_package(m: Manifest, sources: Seq<Seq<u8>>, rem: u32)
    requires
        sources.len() == m.modules@.len(),
        m.modules@.len() <= m.limits.modules && m.modules@.len() <= m.limits.sequence_length,
        modules_ok(m.modules@),
        source_total(sources, 0, m.modules@.len()) <= m.limits.source_bytes,
        rem >= 6 + list_cost(m.modules@.len()) + modules_cost(m.modules@, sources, 0),
    ensures
        ({
            let (p, r1) = sp_record(spec_package(m, sources), PKG1, 1, rem);
            &&& p matches Ok(package)
            &&& sp_list(package[0], m.limits.modules, m.limits.sequence_length, r1).0 matches Ok(nodes)
            &&& sp_modules(nodes, 0, Seq::empty(), m.limits.source_bytes, sp_list(package[0], m.limits.modules, m.limits.sequence_length, r1).1).0
                == Ok::<Seq<ModuleView>, Seq<char>>(packed_views(m.modules@, sources, m.modules@.len() as int))
        }),
{
    let ms = m.modules@;
    let n = ms.len();
    lemma_modules_cost_nonneg(ms, sources, 0);
    crate::schema::lemma_two_pow_pos(tree_height(n));
    let mod_nodes = module_nouns(ms, sources);
    assert(spec_package(m, sources) == spec_record(PKG1, seq![spec_wrap(SEQ1, n as u64, mod_nodes)])) by {
        assert(Seq::new(ms.len(), |i: int| module_noun(ms[i], sources[i])) =~= mod_nodes);
    }
    law_record_read_back(PKG1, seq![spec_wrap(SEQ1, n as u64, mod_nodes)], rem);
    let b7 = (rem - 6) as u32;
    law_list_read_back(mod_nodes, m.limits.modules, m.limits.sequence_length, b7);
    let b8 = sp_list(spec_wrap(SEQ1, n as u64, mod_nodes), m.limits.modules, m.limits.sequence_length, b7).1;
    assert(packed_views(ms, sources, 0) =~= Seq::<ModuleView>::empty());
    lemma_modules_read(ms, sources, 0, m.limits.source_bytes, b8);
}

#[verifier::rlimit(40)]
proof fn lemma_body(m: Manifest, sources: Seq<Seq<u8>>, fields: Seq<Noun>, rem: u32)
    requires
        fields.len() == 6,
        fields[1] == spec_package(m, sources),
        fields[2] == text_noun(m.entry_module@),
        fields[3] == text_noun(m.entry_function@),
        fields[4] == spec_options_noun(m.options),
        sources.len() == m.modules@.len(),
        m.modules@.len() <= m.limits.modules && m.modules@.len() <= m.limits.sequence_length,
        spec_identifier(m.entry_module@) && spec_identifier(m.entry_function@),
        encode_utf8(m.entry_module@).len() <= 255 && encode_utf8(m.entry_function@).len() <= 255,
        m.options.target == 0 && m.options.input_profile <= 1,
        m.options.input_profile == m.options.output_profile && m.options.optimization == 0,
        flag_texts(m.options).len() <= m.limits.sequence_length,
        forall|i: int| 0 <= i < flag_texts(m.options).len() ==> spec_identifier(#[trigger] flag_texts(m.options)[i])
            && encode_utf8(flag_texts(m.options)[i]).len() <= 255,
        forall|i: int| 0 < i < flag_texts(m.options).len() ==> text_lt(flag_texts(m.options)[i - 1], #[trigger] flag_texts(m.options)[i]),
        modules_ok(m.modules@),
        source_total(sources, 0, m.modules@.len()) <= m.limits.source_bytes,
        exists|i: int| 0 <= i < m.modules@.len() && #[trigger] m.modules@[i].logical_path@ == m.entry_module@,
        rem >= body_cost(m, sources),
    ensures
        sp_admit_body(fields, m.limits, rem, m.limits.sequence_length) matches Ok((em, ef, o, mods, index, _))
            && em == m.entry_module@
            && ef == m.entry_function@
            && o == (m.options.target, m.options.input_profile, m.options.output_profile, m.options.optimization, flag_texts(m.options))
            && mods == packed_views(m.modules@, sources, m.modules@.len() as int)
            && index < mods.len() && mods[index as int].0 == m.entry_module@,
{
    let ms = m.modules@;
    let fl = flag_texts(m.options);
    let limits = m.limits;
    lemma_flags_cost_nonneg(fl, 0);
    lemma_modules_cost_nonneg(ms, sources, 0);
    crate::schema::lemma_two_pow_pos(tree_height(ms.len()));
    crate::schema::lemma_two_pow_pos(tree_height(fl.len()));
    lemma_cost_parts_nonneg_text(m.entry_module@);
    lemma_cost_parts_nonneg_text(m.entry_function@);
    lemma_text_read(m.entry_module@, 255, rem);
    let b1 = sp_string(text_noun(m.entry_module@), 255, rem).1;
    lemma_text_read(m.entry_function@, 255, b1);
    let b2 = sp_string(text_noun(m.entry_function@), 255, b1).1;
    lemma_options(m.options, limits, b2);
    let b6 = sp_options(spec_options_noun(m.options), limits.sequence_length, limits.sequence_length, b2).1;
    lemma_package(m, sources, b6);
    let views = packed_views(ms, sources, ms.len() as int);
    let k = choose|k: int| 0 <= k < ms.len() && #[trigger] ms[k].logical_path@ == m.entry_module@;
    assert(views[k].0 == m.entry_module@);
    lemma_find_module(views, m.entry_module@, 0);
}

/// A job packed from a manifest that packing accepts is admitted, given the
/// allowance its reading takes, and admission reads back exactly what was
/// packed: the requested limits, the entry names, the options and flags,
/// every module with its origin and source length, and the entry module.
#[verifier::rlimit(40)]
pub proof fn law_packed_job_admits(compiler: Noun, m: Manifest, sources: Seq<Seq<u8>>, host: RunLimits, program_visits: u32)
    requires
        host.valid(),
        packable(m, sources, host),
        canonical_limbs(noun_digest(compiler)),
        host.compiler.validation_visits >= program_visits + head_cost(),
        m.limits.validation_visits >= program_visits + head_cost() + body_cost(m, sources),
    ensures
        ({
            let job = spec_job_noun(noun_digest(compiler), m, sources);
            &&& sp_admit_head(job, compiler, host, program_visits) matches Ok((fields, limits, rem, seq))
            &&& limits == m.limits
            &&& sp_admit_body(fields, limits, rem, seq) matches Ok((em, ef, o, mods, index, _))
            &&& em == m.entry_module@
            &&& ef == m.entry_function@
            &&& o == (m.options.target, m.options.input_profile, m.options.output_profile, m.options.optimization, flag_texts(m.options))
            &&& mods == packed_views(m.modules@, sources, m.modules@.len() as int)
            &&& index < mods.len() && mods[index as int].0 == m.entry_module@
        }),
{
    let d = noun_digest(compiler);
    lemma_body_cost_nonneg(m, sources);
    lemma_head(compiler, m, sources, host, program_visits);
    let fields = job_fields(d, m, sources);
    let rem = (m.limits.validation_visits - (program_visits + head_cost())) as u32;
    assert(modules_ok(m.modules@));
    lemma_body(m, sources, fields, rem);
}

proof fn lemma_body_cost_nonneg(m: Manifest, sources: Seq<Seq<u8>>)
    ensures
        body_cost(m, sources) >= 0,
{
    lemma_flags_cost_nonneg(flag_texts(m.options), 0);
    lemma_modules_cost_nonneg(m.modules@, sources, 0);
    crate::schema::lemma_two_pow_pos(tree_height(m.modules@.len()));
    crate::schema::lemma_two_pow_pos(tree_height(m.options.cfg_flags@.len()));
}

proof fn lemma_cost_parts_nonneg_text(s: Seq<char>)
    ensures
        text_cost(s) >= 0,
{
}

} // verus!

verus! {

/// An ART1 program record with the given profile and formula.
pub open spec fn spec_program_noun(profile: u64, formula: Noun) -> Noun {
    spec_record(crate::schema::ART1, seq![Noun::Atom(0), Noun::Atom(profile), Noun::Atom(profile), formula])
}

/// A success result for the job with `identity`, carrying `generated`.
pub open spec fn spec_success_result(identity: Seq<u64>, generated: Noun) -> Noun {
    spec_record(crate::schema::RES1, seq![spec_hash_data(identity), Noun::Atom(0), generated])
}

/// A success result that names the job's identity and carries a program of
/// the job's input profile is accepted, and gives that program back, given
/// the allowance its reading takes.
#[verifier::rlimit(40)]
#[verifier::spinoff_prover]
pub proof fn law_success_result_admits(job: crate::job_result::JobView, formula: Noun)
    requires
        canonical_limbs(job.0),
        job.1 <= 1,
        job.4.validation_visits >= 10 + 10 + 1 + 12 + 3,
    ensures
        crate::job_result::sp_validate(spec_success_result(job.0, spec_program_noun(job.1, formula)), job)
            matches Ok((status, compiled, diags, _))
            && status == 0 && compiled == Some(spec_program_noun(job.1, formula)) && diags.len() == 0,
{
    let d = job.0;
    let program = spec_program_noun(job.1, formula);
    let fields = seq![spec_hash_data(d), Noun::Atom(0), program];
    let rem = job.4.validation_visits;
    law_record_read_back(crate::schema::RES1, fields, rem);
    assert(seq![canonical(d[0]), canonical(d[1]), canonical(d[2]), canonical(d[3])] =~= d);
    let m2 = (rem - 10 - 10 - 1) as u32;
    law_record_read_back(crate::schema::ART1, seq![Noun::Atom(0), Noun::Atom(job.1), Noun::Atom(job.1), formula], m2);
}

} // verus!

verus! {

/// A packed job names its compiler by all four digest limbs: admitting it
/// with any compiler of another digest is refused as a compiler identity
/// mismatch, given the allowance to read that far.
pub proof fn law_job_binds_its_compiler(d: Seq<u64>, compiler: Noun, m: Manifest, sources: Seq<Seq<u8>>, host: RunLimits, program_visits: u32)
    requires
        canonical_limbs(d),
        noun_digest(compiler) != d,
        host.compiler.validation_visits >= program_visits + 26,
    ensures
        sp_admit_head(spec_job_noun(d, m, sources), compiler, host, program_visits)
            == Err::<(Seq<Noun>, JobLimits, u32, u32), Seq<char>>("compiler identity mismatch"@),
{
    let rem0 = (host.compiler.validation_visits - program_visits) as u32;
    law_record_read_back(JOB1, job_fields(d, m, sources), rem0);
    assert(seq![canonical(d[0]), canonical(d[1]), canonical(d[2]), canonical(d[3])] =~= d);
}

} // verus!

verus! {

/// What a packed module contributes to a job: its path, origin name and
/// version, and its source bytes. The host file it was read from is not packed.
pub open spec fn packed_module(m: ModuleFile, source: Seq<u8>) -> (Seq<char>, Seq<char>, Seq<char>, Seq<u8>) {
    (m.logical_path@, m.origin_name@, m.origin_version@, source)
}

/// The packed modules of a module list with its sources, in order.
pub open spec fn packed_modules(ms: Seq<ModuleFile>, sources: Seq<Seq<u8>>) -> Seq<(Seq<char>, Seq<char>, Seq<char>, Seq<u8>)> {
    Seq::new(ms.len(), |i: int| packed_module(ms[i], sources[i]))
}

/// `s` is strictly increasing by `key`.
pub open spec fn strictly_by<A>(s: Seq<A>, key: spec_fn(A) -> Seq<u8>) -> bool {
    forall|i: int, j: int| 0 <= i < j < s.len() ==> lex_lt(key(#[trigger] s[i]), key(#[trigger] s[j]))
}

/// Two sequences strictly increasing by the same key that hold the same
/// elements are the same sequence.
proof fn lemma_strict_unique<A>(a: Seq<A>, b: Seq<A>, key: spec_fn(A) -> Seq<u8>)
    requires
        strictly_by(a, key),
        strictly_by(b, key),
        a.to_multiset() == b.to_multiset(),
    ensures
        a == b,
    decreases a.len(),
{
    broadcast use {vstd::seq_lib::group_to_multiset_ensures, vstd::multiset::group_multiset_axioms};
    vstd::seq_lib::to_multiset_len(a);
    vstd::seq_lib::to_multiset_len(b);
    if a.len() == 0 {
        assert(a =~= b);
    } else if b.len() == 0 {
        assert(a.to_multiset().len() == 0);
    } else {
        vstd::seq_lib::to_multiset_contains(a, b[0]);
        vstd::seq_lib::to_multiset_contains(b, b[0]);
        vstd::seq_lib::to_multiset_contains(b, a[0]);
        vstd::seq_lib::to_multiset_contains(a, a[0]);
        assert(b.contains(b[0]));
        assert(a.contains(a[0]));
        let i = choose|i: int| 0 <= i < a.len() && a[i] == b[0];
        let j = choose|j: int| 0 <= j < b.len() && b[j] == a[0];
        if i > 0 {
            assert(lex_lt(key(a[0]), key(a[i])));
            if j > 0 {
                assert(lex_lt(key(b[0]), key(b[j])));
                lemma_lex_total(key(a[0]), key(b[0]));
            } else {
                lemma_lex_total(key(a[0]), key(a[i]));
            }
        }
        assert(a[0] == b[0]);
        vstd::seq_lib::to_multiset_remove(a, 0);
        vstd::seq_lib::to_multiset_remove(b, 0);
        assert(a.remove(0) =~= a.drop_first());
        assert(b.remove(0) =~= b.drop_first());
        assert(strictly_by(a.drop_first(), key)) by {
            assert forall|x: int, y: int| 0 <= x < y < a.drop_first().len() implies
                lex_lt(key(#[trigger] a.drop_first()[x]), key(#[trigger] a.drop_first()[y])) by {
                assert(a.drop_first()[x] == a[x + 1] && a.drop_first()[y] == a[y + 1]);
            }
        }
        assert(strictly_by(b.drop_first(), key)) by {
            assert forall|x: int, y: int| 0 <= x < y < b.drop_first().len() implies
                lex_lt(key(#[trigger] b.drop_first()[x]), key(#[trigger] b.drop_first()[y])) by {
                assert(b.drop_first()[x] == b[x + 1] && b.drop_first()[y] == b[y + 1]);
            }
        }
        lemma_strict_unique(a.drop_first(), b.drop_first(), key);
        assert forall|k: int| 0 <= k < a.len() implies a[k] == b[k] by {
            if k > 0 {
                assert(a[k] == a.drop_first()[k - 1]);
                assert(b[k] == b.drop_first()[k - 1]);
            }
        }
        assert(a =~= b);
    }
}

/// The path key of a packed module.
pub open spec fn packed_key(t: (Seq<char>, Seq<char>, Seq<char>, Seq<u8>)) -> Seq<u8> {
    encode_utf8(t.0)
}

/// The byte key of a text.
pub open spec fn text_key(s: Seq<char>) -> Seq<u8> {
    encode_utf8(s)
}

/// The packing law: a job depends on the normalized manifest, not on how the
/// manifest was written. Two normalized manifests (modules sorted by path with
/// no path repeated, flags sorted with none repeated) with the same entry,
/// options and limits, the same packed modules in any order (the host files
/// they were read from may differ), and the same flags in any order, encode
/// the same JOB1 record.
pub proof fn law_packing_is_canonical(d: Seq<u64>, a: Manifest, b: Manifest, sa: Seq<Seq<u8>>, sb: Seq<Seq<u8>>)
    requires
        sa.len() == a.modules@.len(),
        sb.len() == b.modules@.len(),
        sorted_by_key(a.modules@),
        sorted_by_key(b.modules@),
        distinct_paths(a.modules@),
        distinct_paths(b.modules@),
        sorted_by_key(a.options.cfg_flags@),
        sorted_by_key(b.options.cfg_flags@),
        forall|i: int, j: int| 0 <= i < j < a.options.cfg_flags@.len() ==> #[trigger] a.options.cfg_flags@[i]@ != #[trigger] a.options.cfg_flags@[j]@,
        forall|i: int, j: int| 0 <= i < j < b.options.cfg_flags@.len() ==> #[trigger] b.options.cfg_flags@[i]@ != #[trigger] b.options.cfg_flags@[j]@,
        a.entry_module@ == b.entry_module@,
        a.entry_function@ == b.entry_function@,
        a.limits == b.limits,
        a.options.target == b.options.target,
        a.options.input_profile == b.options.input_profile,
        a.options.output_profile == b.options.output_profile,
        a.options.optimization == b.options.optimization,
        packed_modules(a.modules@, sa).to_multiset() == packed_modules(b.modules@, sb).to_multiset(),
        views(a.options.cfg_flags@).to_multiset() == views(b.options.cfg_flags@).to_multiset(),
    ensures
        spec_job_noun(d, a, sa) == spec_job_noun(d, b, sb),
{
    let pa = packed_modules(a.modules@, sa);
    let pb = packed_modules(b.modules@, sb);
    assert(strictly_by(pa, |t: (Seq<char>, Seq<char>, Seq<char>, Seq<u8>)| packed_key(t))) by {
        assert forall|i: int, j: int| 0 <= i < j < pa.len() implies
            lex_lt(packed_key(#[trigger] pa[i]), packed_key(#[trigger] pa[j])) by {
            lemma_key_strict(a.modules@, i, j);
        }
    }
    assert(strictly_by(pb, |t: (Seq<char>, Seq<char>, Seq<char>, Seq<u8>)| packed_key(t))) by {
        assert forall|i: int, j: int| 0 <= i < j < pb.len() implies
            lex_lt(packed_key(#[trigger] pb[i]), packed_key(#[trigger] pb[j])) by {
            lemma_key_strict(b.modules@, i, j);
        }
    }
    lemma_strict_unique(pa, pb, |t: (Seq<char>, Seq<char>, Seq<char>, Seq<u8>)| packed_key(t));
    let fa = views(a.options.cfg_flags@);
    let fb = views(b.options.cfg_flags@);
    lemma_flags_strict(a.options.cfg_flags@);
    lemma_flags_strict(b.options.cfg_flags@);
    lemma_strict_unique(fa, fb, |s: Seq<char>| text_key(s));
    assert(pa.len() == pb.len());
    let ma = Seq::new(a.modules@.len(), |i: int| module_noun(a.modules@[i], sa[i]));
    let mb = Seq::new(b.modules@.len(), |i: int| module_noun(b.modules@[i], sb[i]));
    assert(ma =~= mb) by {
        assert forall|i: int| 0 <= i < ma.len() implies ma[i] == mb[i] by {
            assert(pa[i] == pb[i]);
        }
    }
    assert(spec_package(a, sa) == spec_package(b, sb));
    let la = Seq::new(a.options.cfg_flags@.len(), |i: int| text_noun(a.options.cfg_flags@[i]@));
    let lb = Seq::new(b.options.cfg_flags@.len(), |i: int| text_noun(b.options.cfg_flags@[i]@));
    assert(la =~= lb) by {
        assert forall|i: int| 0 <= i < la.len() implies la[i] == lb[i] by {
            assert(fa[i] == fb[i]);
        }
    }
    assert(spec_options_noun(a.options) == spec_options_noun(b.options));
}

/// Sorted flags with no text repeated are strictly increasing by their bytes.
proof fn lemma_flags_strict(s: Seq<String>)
    requires
        sorted_by_key(s),
        forall|i: int, j: int| 0 <= i < j < s.len() ==> #[trigger] s[i]@ != #[trigger] s[j]@,
    ensures
        strictly_by(views(s), |t: Seq<char>| text_key(t)),
{
    let v = views(s);
    assert forall|i: int, j: int| 0 <= i < j < v.len() implies lex_lt(text_key(#[trigger] v[i]), text_key(#[trigger] v[j])) by {
        assert(lex_le(s[i].key_bytes(), s[j].key_bytes()));
        vstd::utf8::encode_utf8_decode_utf8(s[i]@);
        vstd::utf8::encode_utf8_decode_utf8(s[j]@);
        assert(s[i]@ != s[j]@);
        lemma_lex_total(s[i].key_bytes(), s[j].key_bytes());
    }
}

} // verus!

verus! {

/// A module as admitted: a valid path and printable origin labels.
pub open spec fn module_view_ok(m: ModuleView) -> bool {
    spec_module_path(m.0) && spec_label(m.1) && spec_label(m.2)
}

/// Each module's path sorts strictly after the one before it.
pub open spec fn paths_chained(ms: Seq<ModuleView>) -> bool {
    forall|k: int| 0 < k < ms.len() ==> text_lt(#[trigger] ms[k - 1].0, ms[k].0)
}

proof fn lemma_modules_read_ok(nodes: Seq<Noun>, i: nat, acc: Seq<ModuleView>, source: u32, rem: u32)
    requires
        paths_chained(acc),
        forall|k: int| 0 <= k < acc.len() ==> #[trigger] module_view_ok(acc[k]),
    ensures
        sp_modules(nodes, i, acc, source, rem).0 matches Ok(ms) ==> paths_chained(ms)
            && (forall|k: int| 0 <= k < ms.len() ==> #[trigger] module_view_ok(ms[k])),
    decreases nodes.len() - i,
{
    if i < nodes.len() {
        let prev = if acc.len() > 0 { Some(acc.last().0) } else { None };
        let (x, m) = sp_module(nodes[i as int], prev, source, rem);
        if let Ok(v) = x {
            let next = acc.push(v);
            assert(module_view_ok(v));
            assert(paths_chained(next)) by {
                assert forall|k: int| 0 < k < next.len() implies text_lt(#[trigger] next[k - 1].0, next[k].0) by {
                    if k == next.len() - 1 {
                        assert(next[k - 1] == acc.last());
                    } else {
                        assert(next[k - 1] == acc[k - 1] && next[k] == acc[k]);
                    }
                }
            }
            assert forall|k: int| 0 <= k < next.len() implies #[trigger] module_view_ok(next[k]) by {
                if k < acc.len() {
                    assert(next[k] == acc[k]);
                }
            }
            lemma_modules_read_ok(nodes, i + 1, next, (source - v.3) as u32, m);
        }
    }
}

proof fn lemma_chain_strict(ms: Seq<ModuleView>, i: int, j: int)
    requires
        paths_chained(ms),
        0 <= i < j < ms.len(),
    ensures
        text_lt(ms[i].0, ms[j].0),
    decreases j - i,
{
    assert(text_lt(ms[j - 1].0, ms[j].0));
    if i < j - 1 {
        lemma_chain_strict(ms, i, j - 1);
        lemma_lex_trans(encode_utf8(ms[i].0), encode_utf8(ms[j - 1].0), encode_utf8(ms[j].0));
    }
}

proof fn lemma_found_module(mods: Seq<ModuleView>, name: Seq<char>, i: nat)
    ensures
        find_module(mods, name, i) matches Some(k) ==> i <= k < mods.len() && mods[k as int].0 == name,
    decreases mods.len() - i,
{
    if i < mods.len() && mods[i as int].0 != name {
        lemma_found_module(mods, name, i + 1);
    }
}

/// What admission guarantees of a job it accepts: identifier entry names, the
/// entry module among the modules, modules in strictly increasing path order
/// (so no path repeats), each with a valid path and printable origin labels.
pub proof fn law_admitted_packages_are_canonical(fields: Seq<Noun>, limits: JobLimits, rem: u32, seq: u32)
    ensures
        sp_admit_body(fields, limits, rem, seq) matches Ok(b) ==> {
            &&& spec_identifier(b.0) && spec_identifier(b.1)
            &&& b.4 < b.3.len() && b.3[b.4 as int].0 == b.0
            &&& forall|i: int, j: int| 0 <= i < j < b.3.len() ==> text_lt(#[trigger] b.3[i].0, #[trigger] b.3[j].0)
            &&& forall|i: int| 0 <= i < b.3.len() ==> #[trigger] module_view_ok(b.3[i])
        },
{
    let r = sp_admit_body(fields, limits, rem, seq);
    if let Ok(b) = r {
        let (a, m1) = sp_string(fields[2], 255, rem);
        let (c, m2) = sp_string(fields[3], 255, m1);
        let (o, m3) = sp_options(fields[4], limits.sequence_length, seq, m2);
        let (p, m4) = sp_record(fields[1], PKG1, 1, m3);
        let package = p->Ok_0;
        let (l, m5) = sp_list(package[0], limits.modules, seq, m4);
        let nodes = l->Ok_0;
        lemma_modules_read_ok(nodes, 0, Seq::empty(), limits.source_bytes, m5);
        lemma_found_module(b.3, b.0, 0);
        assert forall|i: int, j: int| 0 <= i < j < b.3.len() implies text_lt(#[trigger] b.3[i].0, #[trigger] b.3[j].0) by {
            lemma_chain_strict(b.3, i, j);
        }
    }
}

} // verus!

verus! {

/// A diagnostic as a result may carry it: a code from 1 to 8, a module of the
/// job, and a span inside that module's source.
pub open spec fn diagnostic_ok(d: DiagView, job: JobView) -> bool {
    d.0 < job.2.len() && 1 <= d.3 <= 8 && d.1 <= d.2 && d.2 <= job.2[d.0 as int]
}

/// No diagnostic sorts before the one before it.
pub open spec fn diagnostics_ordered(ds: Seq<DiagView>) -> bool {
    forall|k: int| 0 < k < ds.len() ==> !diag_lt(#[trigger] ds[k], ds[k - 1])
}

proof fn lemma_diagnostics_read_ok(nodes: Seq<Noun>, i: nat, acc: Seq<DiagView>, overflow: bool, job: JobView, rem: u32)
    requires
        diagnostics_ordered(acc),
        forall|k: int| 0 <= k < acc.len() ==> #[trigger] diagnostic_ok(acc[k], job),
    ensures
        sp_diagnostics(nodes, i, acc, overflow, job, rem).0 matches Ok(ds) ==> diagnostics_ordered(ds)
            && (forall|k: int| 0 <= k < ds.len() ==> #[trigger] diagnostic_ok(ds[k], job)),
    decreases nodes.len() - i,
{
    if i < nodes.len() {
        let (x, m) = sp_diagnostic(nodes[i as int], overflow, job, rem);
        if let Ok(v) = x {
            if !(acc.len() > 0 && diag_lt(v, acc.last())) {
                let next = acc.push(v);
                assert(diagnostic_ok(v, job));
                assert(diagnostics_ordered(next)) by {
                    assert forall|k: int| 0 < k < next.len() implies !diag_lt(#[trigger] next[k], next[k - 1]) by {
                        if k == next.len() - 1 {
                            assert(next[k - 1] == acc.last());
                        } else {
                            assert(next[k - 1] == acc[k - 1] && next[k] == acc[k]);
                        }
                    }
                }
                assert forall|k: int| 0 <= k < next.len() implies #[trigger] diagnostic_ok(next[k], job) by {
                    if k < acc.len() {
                        assert(next[k] == acc[k]);
                    }
                }
                lemma_diagnostics_read_ok(nodes, i + 1, next, overflow || v.3 == 8, job, m);
            }
        }
    }
}

/// What validation guarantees of a result it accepts: a success carries a
/// program and no diagnostics; a compile error carries no program and at
/// least one diagnostic, each with a code from 1 to 8 and a span inside its
/// module's source, none sorting before the one before it.
pub proof fn law_validated_results_are_consistent(root: Noun, job: JobView)
    ensures
        sp_validate(root, job) matches Ok(v) ==> {
            &&& (v.0 == 0 && v.1 is Some && v.2.len() == 0) || (v.0 == 1 && v.1 is None && v.2.len() > 0)
            &&& diagnostics_ordered(v.2)
            &&& forall|k: int| 0 <= k < v.2.len() ==> #[trigger] diagnostic_ok(v.2[k], job)
        },
{
    if let Ok(v) = sp_validate(root, job) {
        let limits = job.4;
        let (f, m) = sp_record(root, RES1, 3, limits.validation_visits);
        let fields = f->Ok_0;
        let (d, m1) = sp_digest(fields[0], m);
        let (s, m2) = sp_field(fields[1], m1);
        if s->Ok_0 == 1 {
            let (l, m3) = sp_list(fields[2], limits.diagnostics, limits.sequence_length, m2);
            lemma_diagnostics_read_ok(l->Ok_0, 0, Seq::empty(), false, job, m3);
        }
    }
}

} // verus!
