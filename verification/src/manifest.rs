//! Package manifests for compiler jobs: admission and canonical order.
use vstd::prelude::*;
use crate::limits::{JobLimits, RunLimits, all_admitted, first_refused, job_limit_message};
use crate::names::{identifier, is_module_path, label, spec_identifier, spec_module_path, spec_label};
use crate::ordering::{SortKey, sort_by_key, sorted_by_key, lex_lt, lex_le, lemma_lex_total, lemma_lex_trans};
use crate::text::{text, fails_with};

verus! {

/// One source module of a package: where its bytes live on the host, and
/// the identity it is published under.
#[derive(Debug, Clone)]
pub struct ModuleFile {
    pub logical_path: String,
    pub file: String,
    pub origin_name: String,
    pub origin_version: String,
}

impl SortKey for ModuleFile {
    open spec fn key_bytes(&self) -> Seq<u8> {
        vstd::utf8::encode_utf8(self.logical_path@)
    }

    fn key(&self) -> (r: &str) {
        self.logical_path.as_str()
    }
}

/// Compile options of a job.
#[derive(Debug, Clone)]
pub struct Options {
    pub target: u64,
    pub input_profile: u64,
    pub output_profile: u64,
    pub optimization: u64,
    pub cfg_flags: Vec<String>,
}

/// A package manifest as the host reads it.
#[derive(Debug, Clone)]
pub struct Manifest {
    pub version: u32,
    pub entry_module: String,
    pub entry_function: String,
    pub modules: Vec<ModuleFile>,
    pub options: Options,
    pub limits: JobLimits,
}

/// Options this machine compiles: target 0, matching input/output profile 0 or 1, no optimization.
pub open spec fn options_supported(o: Options) -> bool {
    o.target == 0 && o.input_profile <= 1 && o.input_profile == o.output_profile && o.optimization == 0
}

/// A module names a valid path and carries printable origin labels.
pub open spec fn module_names_valid(m: ModuleFile) -> bool {
    spec_module_path(m.logical_path@)
}

/// A module carries printable origin labels.
pub open spec fn module_labels_valid(m: ModuleFile) -> bool {
    spec_label(m.origin_name@) && spec_label(m.origin_version@)
}

/// No two modules share a logical path.
pub open spec fn distinct_paths(s: Seq<ModuleFile>) -> bool {
    forall|i: int, j: int| 0 <= i < j < s.len() ==> #[trigger] s[i].logical_path@ != #[trigger] s[j].logical_path@
}

/// Every module path is valid and no path repeats.
pub open spec fn names_ok(s: Seq<ModuleFile>) -> bool {
    &&& forall|i: int| 0 <= i < s.len() ==> #[trigger] module_names_valid(s[i])
    &&& distinct_paths(s)
}

/// Every module carries printable origin labels.
pub open spec fn labels_ok(s: Seq<ModuleFile>) -> bool {
    forall|i: int| 0 <= i < s.len() ==> #[trigger] module_labels_valid(s[i])
}

/// Module `i` of a sorted sequence passes the name rule: its path is valid
/// and differs from the one before it.
pub open spec fn name_ok_at(s: Seq<ModuleFile>, i: int) -> bool {
    module_names_valid(s[i]) && (i == 0 || s[i - 1].logical_path@ != s[i].logical_path@)
}

/// The module pass from module `i` on: the error of the first module that
/// fails a rule, the name rule checked before the label rule.
pub open spec fn module_fault_from(s: Seq<ModuleFile>, i: int) -> Option<Seq<char>>
    decreases s.len() - i,
{
    if i < 0 || i >= s.len() {
        None
    } else if !name_ok_at(s, i) {
        Some("package module name/duplicate"@)
    } else if !module_labels_valid(s[i]) {
        Some("package origin label"@)
    } else {
        module_fault_from(s, i + 1)
    }
}

/// Every module is valid and no path repeats.
pub open spec fn modules_valid(s: Seq<ModuleFile>) -> bool {
    names_ok(s) && labels_ok(s)
}

/// Some module has the entry path.
pub open spec fn has_entry(s: Seq<ModuleFile>, entry: Seq<char>) -> bool {
    exists|i: int| 0 <= i < s.len() && #[trigger] s[i].logical_path@ == entry
}

/// Every flag is an identifier and no flag repeats.
pub open spec fn flags_valid(s: Seq<String>) -> bool {
    &&& forall|i: int| 0 <= i < s.len() ==> #[trigger] spec_identifier(s[i]@)
    &&& forall|i: int, j: int| 0 <= i < j < s.len() ==> #[trigger] s[i]@ != #[trigger] s[j]@
}

/// The module allowance of a request: the smaller of its module and sequence limits.
pub open spec fn module_allowance(l: JobLimits) -> int {
    if l.modules < l.sequence_length { l.modules as int } else { l.sequence_length as int }
}

/// The checks that precede the module pass, in order.
pub open spec fn header_ok(m: Manifest, host: RunLimits) -> bool {
    &&& m.version == 1
    &&& all_admitted(m.limits.spec_values(), host.caps())
    &&& m.modules@.len() <= module_allowance(m.limits)
    &&& spec_identifier(m.entry_module@)
    &&& spec_identifier(m.entry_function@)
}

/// Adjacent distinct keys of a key-sorted sequence are strictly ordered, so no key repeats.
proof fn lemma_sorted_adjacent_distinct(s: Seq<ModuleFile>)
    requires
        sorted_by_key(s),
        forall|k: int| 0 < k < s.len() ==> #[trigger] s[k].logical_path@ != s[k - 1].logical_path@,
    ensures
        distinct_paths(s),
{
    assert forall|i: int, j: int| 0 <= i < j < s.len() implies #[trigger] s[i].logical_path@ != #[trigger] s[j].logical_path@ by {
        lemma_sorted_strict(s, i, j);
        lemma_lex_total(s[i].key_bytes(), s[j].key_bytes());
    }
}

proof fn lemma_sorted_strict(s: Seq<ModuleFile>, i: int, j: int)
    requires
        sorted_by_key(s),
        forall|k: int| 0 < k < s.len() ==> #[trigger] s[k].logical_path@ != s[k - 1].logical_path@,
        0 <= i < j < s.len(),
    ensures
        lex_lt(s[i].key_bytes(), s[j].key_bytes()),
    decreases j - i,
{
    vstd::utf8::encode_utf8_decode_utf8(s[j - 1].logical_path@);
    vstd::utf8::encode_utf8_decode_utf8(s[j].logical_path@);
    assert(s[j - 1].key_bytes() != s[j].key_bytes());
    assert(lex_le(s[j - 1].key_bytes(), s[j].key_bytes()));
    lemma_lex_total(s[j - 1].key_bytes(), s[j].key_bytes());
    if i < j - 1 {
        lemma_sorted_strict(s, i, j - 1);
        lemma_lex_trans(s[i].key_bytes(), s[j - 1].key_bytes(), s[j].key_bytes());
    }
}

proof fn lemma_sorted_flags_distinct(s: Seq<String>, i: int, j: int)
    requires
        sorted_by_key(s),
        forall|k: int| 0 < k < s.len() ==> #[trigger] s[k]@ != s[k - 1]@,
        0 <= i < j < s.len(),
    ensures
        lex_lt(s[i].key_bytes(), s[j].key_bytes()),
        s[i]@ != s[j]@,
    decreases j - i,
{
    vstd::utf8::encode_utf8_decode_utf8(s[j - 1]@);
    vstd::utf8::encode_utf8_decode_utf8(s[j]@);
    assert(lex_le(s[j - 1].key_bytes(), s[j].key_bytes()));
    lemma_lex_total(s[j - 1].key_bytes(), s[j].key_bytes());
    if i < j - 1 {
        lemma_sorted_flags_distinct(s, i, j - 1);
        lemma_lex_trans(s[i].key_bytes(), s[j - 1].key_bytes(), s[j].key_bytes());
    }
    lemma_lex_total(s[i].key_bytes(), s[j].key_bytes());
}

/// Validates a package manifest against the host and puts it in canonical
/// order: modules sorted by logical path, cfg flags sorted. The module and
/// flag checks run over the sorted sequences.
#[verifier::loop_isolation(false)]
#[verifier::rlimit(40)]
pub fn normalize(manifest: &mut Manifest, host: RunLimits) -> (r: Result<(), String>)
    ensures
        final(manifest).version == old(manifest).version,
        final(manifest).entry_module == old(manifest).entry_module,
        final(manifest).entry_function == old(manifest).entry_function,
        final(manifest).limits == old(manifest).limits,
        final(manifest).options.target == old(manifest).options.target,
        final(manifest).options.input_profile == old(manifest).options.input_profile,
        final(manifest).options.output_profile == old(manifest).options.output_profile,
        final(manifest).options.optimization == old(manifest).options.optimization,
        final(manifest).modules@.to_multiset() == old(manifest).modules@.to_multiset(),
        final(manifest).modules@.len() == old(manifest).modules@.len(),
        final(manifest).options.cfg_flags@.to_multiset() == old(manifest).options.cfg_flags@.to_multiset(),
        final(manifest).options.cfg_flags@.len() == old(manifest).options.cfg_flags@.len(),
        old(manifest).version != 1 ==> fails_with(r, "unsupported package manifest version"@),
        old(manifest).version == 1 && !all_admitted(old(manifest).limits.spec_values(), host.caps())
            ==> fails_with(r, job_limit_message(first_refused(old(manifest).limits.spec_values(), host.caps()) as nat)),
        old(manifest).version == 1 && all_admitted(old(manifest).limits.spec_values(), host.caps())
            && old(manifest).modules@.len() > module_allowance(old(manifest).limits)
            ==> fails_with(r, "package module count limit"@),
        old(manifest).version == 1 && all_admitted(old(manifest).limits.spec_values(), host.caps())
            && old(manifest).modules@.len() <= module_allowance(old(manifest).limits)
            && !(spec_identifier(old(manifest).entry_module@) && spec_identifier(old(manifest).entry_function@))
            ==> fails_with(r, "package entry identifier"@),
        header_ok(*old(manifest), host) ==> sorted_by_key(final(manifest).modules@),
        header_ok(*old(manifest), host) && !modules_valid(final(manifest).modules@) ==> (
            module_fault_from(final(manifest).modules@, 0) matches Some(e) && fails_with(r, e)),
        header_ok(*old(manifest), host) ==> (
            module_fault_from(final(manifest).modules@, 0) is None <==> modules_valid(final(manifest).modules@)),
        header_ok(*old(manifest), host) && modules_valid(final(manifest).modules@)
            && !has_entry(final(manifest).modules@, old(manifest).entry_module@)
            ==> fails_with(r, "package entry module absent"@),
        header_ok(*old(manifest), host) && modules_valid(final(manifest).modules@)
            && has_entry(final(manifest).modules@, old(manifest).entry_module@)
            && !options_supported(old(manifest).options)
            ==> fails_with(r, "unsupported package option"@),
        header_ok(*old(manifest), host) && modules_valid(final(manifest).modules@)
            && has_entry(final(manifest).modules@, old(manifest).entry_module@)
            && options_supported(old(manifest).options)
            && old(manifest).options.cfg_flags@.len() > old(manifest).limits.sequence_length
            ==> fails_with(r, "cfg count limit"@),
        header_ok(*old(manifest), host) && modules_valid(final(manifest).modules@)
            && has_entry(final(manifest).modules@, old(manifest).entry_module@)
            && options_supported(old(manifest).options)
            && old(manifest).options.cfg_flags@.len() <= old(manifest).limits.sequence_length
            ==> sorted_by_key(final(manifest).options.cfg_flags@) && (
                flags_valid(final(manifest).options.cfg_flags@) ==> r is Ok) && (
                !flags_valid(final(manifest).options.cfg_flags@) ==> fails_with(r, "cfg name/duplicate"@)),
        r is Ok ==> header_ok(*old(manifest), host),
{
    if manifest.version != 1 {
        return Err(text("unsupported package manifest version"));
    }
    let values = manifest.limits.values();
    match JobLimits::admit_limits(values, host) {
        Ok(_) => {},
        Err(e) => {
            return Err(e);
        },
    }
    let allowance = if manifest.limits.modules < manifest.limits.sequence_length {
        manifest.limits.modules
    } else {
        manifest.limits.sequence_length
    };
    if manifest.modules.len() > allowance as usize {
        return Err(text("package module count limit"));
    }
    if !identifier(manifest.entry_module.as_str()) || !identifier(manifest.entry_function.as_str()) {
        return Err(text("package entry identifier"));
    }
    sort_by_key(&mut manifest.modules);
    let n = manifest.modules.len();
    let mut i: usize = 0;
    while i < n
        invariant
            n == manifest.modules@.len(),
            i <= n,
            forall|k: int| 0 <= k < i ==> #[trigger] module_names_valid(manifest.modules@[k]),
            forall|k: int| 0 <= k < i ==> #[trigger] module_labels_valid(manifest.modules@[k]),
            forall|k: int| 0 < k < i ==> #[trigger] manifest.modules@[k].logical_path@ != manifest.modules@[k - 1].logical_path@,
            module_fault_from(manifest.modules@, 0) == module_fault_from(manifest.modules@, i as int),
        decreases n - i,
    {
        let bad_name = !is_module_path(manifest.modules[i].logical_path.as_str())
            || (i > 0 && manifest.modules[i - 1].logical_path == manifest.modules[i].logical_path);
        if bad_name {
            proof {
                let s = manifest.modules@;
                if !module_names_valid(s[i as int]) {
                    assert(!(forall|x: int| 0 <= x < s.len() ==> #[trigger] module_names_valid(s[x])));
                } else {
                    assert(s[i - 1].logical_path@ == s[i as int].logical_path@);
                    assert(!distinct_paths(s));
                }
                assert(!name_ok_at(s, i as int));
            }
            return Err(text("package module name/duplicate"));
        }
        if !label(manifest.modules[i].origin_name.as_str()) || !label(manifest.modules[i].origin_version.as_str()) {
            proof {
                let s = manifest.modules@;
                assert(!module_labels_valid(s[i as int]));
                assert(!(forall|x: int| 0 <= x < s.len() ==> #[trigger] module_labels_valid(s[x])));
                assert(name_ok_at(s, i as int));
            }
            return Err(text("package origin label"));
        }
        proof {
            let s = manifest.modules@;
            assert(name_ok_at(s, i as int));
            assert(module_fault_from(s, i as int) == module_fault_from(s, i as int + 1));
        }
        i = i + 1;
    }
    proof {
        lemma_sorted_adjacent_distinct(manifest.modules@);
    }
    let mut found = false;
    let mut j: usize = 0;
    while j < n
        invariant
            n == manifest.modules@.len(),
            j <= n,
            found == exists|k: int| 0 <= k < j && #[trigger] manifest.modules@[k].logical_path@ == manifest.entry_module@,
        decreases n - j,
    {
        if manifest.modules[j].logical_path == manifest.entry_module {
            found = true;
        }
        j = j + 1;
    }
    if !found {
        return Err(text("package entry module absent"));
    }
    let o = &manifest.options;
    if o.target != 0 || o.input_profile > 1 || o.input_profile != o.output_profile || o.optimization != 0 {
        return Err(text("unsupported package option"));
    }
    if manifest.options.cfg_flags.len() > manifest.limits.sequence_length as usize {
        return Err(text("cfg count limit"));
    }
    sort_by_key(&mut manifest.options.cfg_flags);
    let m = manifest.options.cfg_flags.len();
    let mut k: usize = 0;
    while k < m
        invariant
            m == manifest.options.cfg_flags@.len(),
            k <= m,
            forall|x: int| 0 <= x < k ==> #[trigger] spec_identifier(manifest.options.cfg_flags@[x]@),
            forall|x: int| 0 < x < k ==> #[trigger] manifest.options.cfg_flags@[x]@ != manifest.options.cfg_flags@[x - 1]@,
        decreases m - k,
    {
        if !identifier(manifest.options.cfg_flags[k].as_str())
            || (k > 0 && manifest.options.cfg_flags[k - 1] == manifest.options.cfg_flags[k]) {
            proof {
                let s = manifest.options.cfg_flags@;
                if k > 0 && s[k - 1]@ == s[k as int]@ {
                    assert(!flags_valid(s));
                }
            }
            return Err(text("cfg name/duplicate"));
        }
        k = k + 1;
    }
    proof {
        let s = manifest.options.cfg_flags@;
        assert forall|x: int, y: int| 0 <= x < y < s.len() implies #[trigger] s[x]@ != #[trigger] s[y]@ by {
            lemma_sorted_flags_distinct(s, x, y);
        }
    }
    Ok(())
}

} // verus!

verus! {

/// Canonical module order: two module lists that hold the same modules, each
/// sorted by logical path with no path repeated, are identical. So the order in
/// which a manifest lists its modules never changes the normalized package.
pub proof fn law_module_order_is_canonical(a: Seq<ModuleFile>, b: Seq<ModuleFile>)
    requires
        sorted_by_key(a),
        sorted_by_key(b),
        distinct_paths(a),
        distinct_paths(b),
        a.to_multiset() == b.to_multiset(),
    ensures
        a == b,
    decreases a.len(),
{
    broadcast use {vstd::seq_lib::group_to_multiset_ensures, vstd::multiset::group_multiset_axioms};
    vstd::seq_lib::to_multiset_len(a);
    vstd::seq_lib::to_multiset_len(b);
    if a.len() == 0 {
        assert(b.len() == 0);
        assert(a =~= b);
    } else if b.len() == 0 {
        assert(a.to_multiset().len() == 0);
    } else {
        vstd::seq_lib::to_multiset_contains(a, b[0]);
        vstd::seq_lib::to_multiset_contains(b, b[0]);
        vstd::seq_lib::to_multiset_contains(b, a[0]);
        vstd::seq_lib::to_multiset_contains(a, a[0]);
        assert(b.contains(b[0]));
        assert(a.contains(a[0]));
        let i = choose|i: int| 0 <= i < a.len() && a[i] == b[0];
        let j = choose|j: int| 0 <= j < b.len() && b[j] == a[0];
        if i > 0 {
            lemma_key_strict(a, 0, i);
            if j > 0 {
                lemma_key_strict(b, 0, j);
                lemma_lex_trans(a[0].key_bytes(), a[i].key_bytes(), b[j].key_bytes());
                lemma_lex_total(a[0].key_bytes(), a[0].key_bytes());
            } else {
                lemma_lex_total(a[0].key_bytes(), a[i].key_bytes());
            }
        }
        assert(a[0] == b[0]);
        vstd::seq_lib::to_multiset_remove(a, 0);
        vstd::seq_lib::to_multiset_remove(b, 0);
        assert(a.remove(0) =~= a.drop_first());
        assert(b.remove(0) =~= b.drop_first());
        law_module_order_is_canonical(a.drop_first(), b.drop_first());
        assert forall|k: int| 0 <= k < a.len() implies a[k] == b[k] by {
            if k > 0 {
                assert(a[k] == a.drop_first()[k - 1]);
                assert(b[k] == b.drop_first()[k - 1]);
            }
        }
        assert(a =~= b);
    }
}

/// In a key-sorted list without repeated paths, later modules have strictly larger keys.
pub proof fn lemma_key_strict(s: Seq<ModuleFile>, i: int, j: int)
    requires
        sorted_by_key(s),
        distinct_paths(s),
        0 <= i < j < s.len(),
    ensures
        lex_lt(s[i].key_bytes(), s[j].key_bytes()),
{
    vstd::utf8::encode_utf8_decode_utf8(s[i].logical_path@);
    vstd::utf8::encode_utf8_decode_utf8(s[j].logical_path@);
    assert(s[i].logical_path@ != s[j].logical_path@);
    assert(lex_le(s[i].key_bytes(), s[j].key_bytes()));
    lemma_lex_total(s[i].key_bytes(), s[j].key_bytes());
}

} // verus!
