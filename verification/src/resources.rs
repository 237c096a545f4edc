//! Building language inventories and combining timing models.

use vstd::prelude::*;
use crate::groups::{
    add_samples, groups_match, groups_to_cluster_timings, groups_to_generic_timings, groups_view,
    lemma_groups_result, SampleGroups,
};
use crate::model::{
    cluster_entries, copy_strings, distinct_groups, generic_entries, group_of, has_group,
    lemma_group_of_concat, opt_seq, seq_has_string, strings_view, LanguageInfo, PhonemeMap, PhonemeType,
    TimingMetadata, TimingModel,
};
use crate::predict::{clone_opt_string, clone_opt_strings};
use crate::table::KeyedTable;

verus! {

/// A copy of model metadata.
pub fn copy_metadata(m: &TimingMetadata) -> (r: TimingMetadata)
    ensures
        r.library == m.library,
        r.language == m.language,
        r.voice_color == m.voice_color,
        r.created_at == m.created_at,
        opt_seq(r.source_files) == opt_seq(m.source_files),
{
    TimingMetadata {
        library: m.library.clone(),
        language: m.language.clone(),
        voice_color: m.voice_color.clone(),
        created_at: clone_opt_string(&m.created_at),
        source_files: clone_opt_strings(&m.source_files),
    }
}

/// Merge two timing models into one.
///
/// The result keeps the primary model's version and metadata. Each phoneme
/// (or type) sequence occurs once, in first-seen order, holding the samples
/// of both models for it: the primary's first, then the secondary's.
pub fn merge_models(primary: &TimingModel, secondary: &TimingModel) -> (r: TimingModel)
    ensures
        r.version == primary.version,
        r.metadata.library == primary.metadata.library,
        r.metadata.language == primary.metadata.language,
        r.metadata.voice_color == primary.metadata.voice_color,
        r.metadata.created_at == primary.metadata.created_at,
        opt_seq(r.metadata.source_files) == opt_seq(primary.metadata.source_files),
        distinct_groups(cluster_entries(r.cluster_timings@)),
        distinct_groups(generic_entries(r.generic_timings@)),
        forall|p: Seq<Seq<char>>| #[trigger] has_group(cluster_entries(r.cluster_timings@), p) ==
            (has_group(cluster_entries(primary.cluster_timings@), p) || has_group(cluster_entries(secondary.cluster_timings@), p)),
        forall|p: Seq<PhonemeType>| #[trigger] has_group(generic_entries(r.generic_timings@), p) ==
            (has_group(generic_entries(primary.generic_timings@), p) || has_group(generic_entries(secondary.generic_timings@), p)),
        forall|p: Seq<Seq<char>>| #[trigger] group_of(cluster_entries(r.cluster_timings@), p) ==
            group_of(cluster_entries(primary.cluster_timings@), p) + group_of(cluster_entries(secondary.cluster_timings@), p),
        forall|p: Seq<PhonemeType>| #[trigger] group_of(generic_entries(r.generic_timings@), p) ==
            group_of(generic_entries(primary.generic_timings@), p) + group_of(generic_entries(secondary.generic_timings@), p),
{
    let ghost pc = cluster_entries(primary.cluster_timings@);
    let ghost sc = cluster_entries(secondary.cluster_timings@);
    let ghost pg = generic_entries(primary.generic_timings@);
    let ghost sg = generic_entries(secondary.generic_timings@);
    let mut cluster_map: SampleGroups<String> = KeyedTable::new();
    let mut generic_map: SampleGroups<PhonemeType> = KeyedTable::new();

    let n = primary.cluster_timings.len();
    let mut i: usize = 0;
    while i < n
        invariant
            n == primary.cluster_timings@.len(),
            pc == cluster_entries(primary.cluster_timings@),
            0 <= i <= n,
            groups_match(cluster_map, pc.take(i as int)),
        decreases n - i,
    {
        let ct = &primary.cluster_timings[i];
        add_samples(&mut cluster_map, &ct.phonemes, &ct.samples);
        assert(strings_view(ct.phonemes@) =~= ct.phonemes.deep_view());
        assert(pc.take(i + 1) =~= pc.take(i as int).push((ct.phonemes.deep_view(), crate::tree::samples_view(ct.samples@))));
        i = i + 1;
    }
    assert(pc.take(n as int) =~= pc);
    let n = primary.generic_timings.len();
    let mut i: usize = 0;
    while i < n
        invariant
            n == primary.generic_timings@.len(),
            pg == generic_entries(primary.generic_timings@),
            0 <= i <= n,
            groups_match(generic_map, pg.take(i as int)),
        decreases n - i,
    {
        let gt = &primary.generic_timings[i];
        add_samples(&mut generic_map, &gt.types, &gt.samples);
        assert(gt.types.deep_view() =~= gt.types@);
        assert(pg.take(i + 1) =~= pg.take(i as int).push((gt.types.deep_view(), crate::tree::samples_view(gt.samples@))));
        i = i + 1;
    }
    assert(pg.take(n as int) =~= pg);

    let n = secondary.cluster_timings.len();
    let mut i: usize = 0;
    while i < n
        invariant
            n == secondary.cluster_timings@.len(),
            sc == cluster_entries(secondary.cluster_timings@),
            0 <= i <= n,
            groups_match(cluster_map, pc + sc.take(i as int)),
        decreases n - i,
    {
        let ct = &secondary.cluster_timings[i];
        add_samples(&mut cluster_map, &ct.phonemes, &ct.samples);
        assert(strings_view(ct.phonemes@) =~= ct.phonemes.deep_view());
        assert(pc + sc.take(i + 1) =~= (pc + sc.take(i as int)).push((ct.phonemes.deep_view(), crate::tree::samples_view(ct.samples@))));
        i = i + 1;
    }
    assert(sc.take(n as int) =~= sc);
    let n = secondary.generic_timings.len();
    let mut i: usize = 0;
    while i < n
        invariant
            n == secondary.generic_timings@.len(),
            sg == generic_entries(secondary.generic_timings@),
            0 <= i <= n,
            groups_match(generic_map, pg + sg.take(i as int)),
        decreases n - i,
    {
        let gt = &secondary.generic_timings[i];
        add_samples(&mut generic_map, &gt.types, &gt.samples);
        assert(gt.types.deep_view() =~= gt.types@);
        assert(pg + sg.take(i + 1) =~= (pg + sg.take(i as int)).push((gt.types.deep_view(), crate::tree::samples_view(gt.samples@))));
        i = i + 1;
    }
    assert(sg.take(n as int) =~= sg);

    proof {
        lemma_groups_result(cluster_map, pc + sc);
        lemma_groups_result(generic_map, pg + sg);
        assert forall|p: Seq<Seq<char>>| #[trigger] group_of(pc + sc, p) == group_of(pc, p) + group_of(sc, p) by {
            lemma_group_of_concat(pc, sc, p);
        }
        assert forall|p: Seq<PhonemeType>| #[trigger] group_of(pg + sg, p) == group_of(pg, p) + group_of(sg, p) by {
            lemma_group_of_concat(pg, sg, p);
        }
        assert forall|p: Seq<Seq<char>>| #[trigger] has_group(pc + sc, p) == (has_group(pc, p) || has_group(sc, p)) by {
            if has_group(pc, p) {
                let i = choose|i: int| 0 <= i < pc.len() && #[trigger] pc[i].0 == p;
                assert((pc + sc)[i].0 == p);
            }
            if has_group(sc, p) {
                let i = choose|i: int| 0 <= i < sc.len() && #[trigger] sc[i].0 == p;
                assert((pc + sc)[pc.len() + i].0 == p);
            }
            if has_group(pc + sc, p) {
                let i = choose|i: int| 0 <= i < (pc + sc).len() && #[trigger] (pc + sc)[i].0 == p;
                if i < pc.len() {
                    assert(pc[i].0 == p);
                } else {
                    assert(sc[i - pc.len()].0 == p);
                }
            }
        }
        assert forall|p: Seq<PhonemeType>| #[trigger] has_group(pg + sg, p) == (has_group(pg, p) || has_group(sg, p)) by {
            if has_group(pg, p) {
                let i = choose|i: int| 0 <= i < pg.len() && #[trigger] pg[i].0 == p;
                assert((pg + sg)[i].0 == p);
            }
            if has_group(sg, p) {
                let i = choose|i: int| 0 <= i < sg.len() && #[trigger] sg[i].0 == p;
                assert((pg + sg)[pg.len() + i].0 == p);
            }
            if has_group(pg + sg, p) {
                let i = choose|i: int| 0 <= i < (pg + sg).len() && #[trigger] (pg + sg)[i].0 == p;
                if i < pg.len() {
                    assert(pg[i].0 == p);
                } else {
                    assert(sg[i - pg.len()].0 == p);
                }
            }
        }
    }
    TimingModel {
        version: primary.version.clone(),
        metadata: copy_metadata(&primary.metadata),
        cluster_timings: groups_to_cluster_timings(cluster_map),
        generic_timings: groups_to_generic_timings(generic_map),
    }
}

/// The lists of a global phoneme file: each key is a phoneme type and holds
/// the phonemes of that type.
#[derive(Debug, Clone)]
pub struct RawLanguageInfoFile {
    /// Plosive labels.
    pub plosives: Vec<String>,
    /// Affricate labels.
    pub affricates: Vec<String>,
    /// Fricative labels.
    pub fricatives: Vec<String>,
    /// Sonorant labels.
    pub sonorants: Vec<String>,
    /// Tap labels.
    pub taps: Vec<String>,
    /// Vowel labels.
    pub vowels: Vec<String>,
    /// Diphthong labels.
    pub diphthongs: Vec<String>,
}

/// The type a global file gives `p`: the last list that holds it, in the
/// order plosives, affricates, fricatives, sonorants, taps, vowels,
/// diphthongs.
pub open spec fn raw_type(raw: RawLanguageInfoFile, p: Seq<char>) -> Option<PhonemeType> {
    if seq_has_string(raw.diphthongs@, p) {
        Some(PhonemeType::Diphthong)
    } else if seq_has_string(raw.vowels@, p) {
        Some(PhonemeType::Vowel)
    } else if seq_has_string(raw.taps@, p) {
        Some(PhonemeType::Tap)
    } else if seq_has_string(raw.sonorants@, p) {
        Some(PhonemeType::Sonorant)
    } else if seq_has_string(raw.fricatives@, p) {
        Some(PhonemeType::Fricative)
    } else if seq_has_string(raw.affricates@, p) {
        Some(PhonemeType::Affricate)
    } else if seq_has_string(raw.plosives@, p) {
        Some(PhonemeType::Plosive)
    } else {
        None
    }
}

/// The type the lists of a global file give `p`, read list by list in file
/// order (plosives, affricates, fricatives, sonorants, taps, vowels,
/// diphthongs), a later list overriding an earlier one.
pub open spec fn listed_type(raw: RawLanguageInfoFile, p: Seq<char>) -> Option<PhonemeType> {
    let t0: Option<PhonemeType> = None;
    let t1 = if seq_has_string(raw.plosives@, p) { Some(PhonemeType::Plosive) } else { t0 };
    let t2 = if seq_has_string(raw.affricates@, p) { Some(PhonemeType::Affricate) } else { t1 };
    let t3 = if seq_has_string(raw.fricatives@, p) { Some(PhonemeType::Fricative) } else { t2 };
    let t4 = if seq_has_string(raw.sonorants@, p) { Some(PhonemeType::Sonorant) } else { t3 };
    let t5 = if seq_has_string(raw.taps@, p) { Some(PhonemeType::Tap) } else { t4 };
    let t6 = if seq_has_string(raw.vowels@, p) { Some(PhonemeType::Vowel) } else { t5 };
    if seq_has_string(raw.diphthongs@, p) { Some(PhonemeType::Diphthong) } else { t6 }
}

/// Each list of a global file gives its phonemes its own type: a phoneme
/// listed under vowels (and not as a diphthong) is a vowel, one listed under
/// taps (and under no later list) a tap, and so on; an unlisted phoneme has
/// no type.
pub proof fn law_listed_type(raw: RawLanguageInfoFile, p: Seq<char>)
    ensures
        listed_type(raw, p) == raw_type(raw, p),
        seq_has_string(raw.diphthongs@, p) ==> raw_type(raw, p) == Some(PhonemeType::Diphthong),
        seq_has_string(raw.vowels@, p) && !seq_has_string(raw.diphthongs@, p) ==> raw_type(raw, p) == Some(PhonemeType::Vowel),
        seq_has_string(raw.taps@, p) && !seq_has_string(raw.vowels@, p) && !seq_has_string(raw.diphthongs@, p)
            ==> raw_type(raw, p) == Some(PhonemeType::Tap),
        seq_has_string(raw.sonorants@, p) && !seq_has_string(raw.taps@, p) && !seq_has_string(raw.vowels@, p)
            && !seq_has_string(raw.diphthongs@, p) ==> raw_type(raw, p) == Some(PhonemeType::Sonorant),
        seq_has_string(raw.fricatives@, p) && !seq_has_string(raw.sonorants@, p) && !seq_has_string(raw.taps@, p)
            && !seq_has_string(raw.vowels@, p) && !seq_has_string(raw.diphthongs@, p)
            ==> raw_type(raw, p) == Some(PhonemeType::Fricative),
        seq_has_string(raw.affricates@, p) && !seq_has_string(raw.fricatives@, p) && !seq_has_string(raw.sonorants@, p)
            && !seq_has_string(raw.taps@, p) && !seq_has_string(raw.vowels@, p) && !seq_has_string(raw.diphthongs@, p)
            ==> raw_type(raw, p) == Some(PhonemeType::Affricate),
        seq_has_string(raw.plosives@, p) && !seq_has_string(raw.affricates@, p) && !seq_has_string(raw.fricatives@, p)
            && !seq_has_string(raw.sonorants@, p) && !seq_has_string(raw.taps@, p) && !seq_has_string(raw.vowels@, p)
            && !seq_has_string(raw.diphthongs@, p) ==> raw_type(raw, p) == Some(PhonemeType::Plosive),
        raw_type(raw, p) is None <==> !(seq_has_string(raw.plosives@, p) || seq_has_string(raw.affricates@, p)
            || seq_has_string(raw.fricatives@, p) || seq_has_string(raw.sonorants@, p) || seq_has_string(raw.taps@, p)
            || seq_has_string(raw.vowels@, p) || seq_has_string(raw.diphthongs@, p)),
{
}

/// Give every phoneme of `names` the type `t`, replacing earlier types.
fn insert_all(table: &mut KeyedTable<String, PhonemeType>, names: &Vec<String>, t: PhonemeType)
    requires
        old(table).wf(),
    ensures
        final(table).wf(),
        forall|p: Seq<char>| #[trigger] final(table).map().contains_key(p) ==
            (old(table).map().contains_key(p) || seq_has_string(names@, p)),
        forall|p: Seq<char>| final(table).map().contains_key(p) ==> #[trigger] final(table).map()[p] ==
            (if seq_has_string(names@, p) { t } else { old(table).map()[p] }),
{
    let ghost t0 = *table;
    let n = names.len();
    let mut i: usize = 0;
    while i < n
        invariant
            n == names@.len(),
            0 <= i <= n,
            table.wf(),
            forall|p: Seq<char>| #[trigger] table.map().contains_key(p) ==
                (t0.map().contains_key(p) || seq_has_string(names@.take(i as int), p)),
            forall|p: Seq<char>| table.map().contains_key(p) ==> #[trigger] table.map()[p] ==
                (if seq_has_string(names@.take(i as int), p) { t } else { t0.map()[p] }),
        decreases n - i,
    {
        table.insert(names[i].clone(), t);
        proof {
            let pre = names@.take(i as int);
            let cur = names@.take(i + 1);
            assert forall|p: Seq<char>| #[trigger] seq_has_string(cur, p) == (seq_has_string(pre, p) || p == names@[i as int]@) by {
                if seq_has_string(pre, p) {
                    let j = choose|j: int| 0 <= j < pre.len() && #[trigger] pre[j]@ == p;
                    assert(cur[j]@ == p);
                }
                if p == names@[i as int]@ {
                    assert(cur[i as int]@ == p);
                }
                if seq_has_string(cur, p) {
                    let j = choose|j: int| 0 <= j < cur.len() && #[trigger] cur[j]@ == p;
                    if j < i {
                        assert(pre[j]@ == p);
                    }
                }
            }
        }
        i = i + 1;
    }
    assert(names@.take(n as int) =~= names@);
}

/// Build the language info of a parsed global phoneme file.
///
/// Each listed phoneme gets the type of the last list holding it; vowels
/// and diphthongs bound consonant clusters; there are no diphthong
/// extensions or syllabic consonants.
pub fn build_language_info_from_raw(name: &str, raw: RawLanguageInfoFile) -> (info: LanguageInfo)
    ensures
        info.wf(),
        info.name@ == name@,
        info.plosives@ == raw.plosives@,
        info.affricates@ == raw.affricates@,
        info.fricatives@ == raw.fricatives@,
        info.sonorants@ == raw.sonorants@,
        info.taps@ == raw.taps@,
        info.vowels@ == raw.vowels@,
        info.diphthongs@ == raw.diphthongs@,
        info.syllabic_consonants@.len() == 0,
        info.diphthong_extensions.map() == Map::<Seq<char>, String>::empty(),
        forall|p: Seq<char>| #[trigger] info.types().contains_key(p) == raw_type(raw, p).is_some(),
        forall|p: Seq<char>| info.types().contains_key(p) ==> #[trigger] info.types()[p] == raw_type(raw, p).unwrap(),
        forall|p: Seq<char>| #[trigger] listed_type(raw, p) matches Some(t) ==> info.types().contains_key(p) && info.types()[p] == t,
        forall|p: Seq<char>| #[trigger] listed_type(raw, p) is None ==> !info.types().contains_key(p),
{
    let mut phonemes: KeyedTable<String, PhonemeType> = KeyedTable::new();
    insert_all(&mut phonemes, &raw.plosives, PhonemeType::Plosive);
    insert_all(&mut phonemes, &raw.affricates, PhonemeType::Affricate);
    insert_all(&mut phonemes, &raw.fricatives, PhonemeType::Fricative);
    insert_all(&mut phonemes, &raw.sonorants, PhonemeType::Sonorant);
    insert_all(&mut phonemes, &raw.taps, PhonemeType::Tap);
    insert_all(&mut phonemes, &raw.vowels, PhonemeType::Vowel);
    insert_all(&mut phonemes, &raw.diphthongs, PhonemeType::Diphthong);
    proof {
        assert forall|p: Seq<char>| #[trigger] listed_type(raw, p) == raw_type(raw, p) by {
            law_listed_type(raw, p);
        }
    }
    LanguageInfo {
        name: name.to_owned(),
        plosives: raw.plosives,
        affricates: raw.affricates,
        fricatives: raw.fricatives,
        sonorants: raw.sonorants,
        taps: raw.taps,
        vowels: raw.vowels,
        diphthongs: raw.diphthongs,
        diphthong_extensions: KeyedTable::new(),
        syllabic_consonants: Vec::new(),
        phonemes,
    }
}

/// The phoneme map of a language inventory: its name and phoneme types.
pub fn phoneme_map_from_language_info(info: LanguageInfo) -> (m: PhonemeMap)
    ensures
        m.name == info.name,
        m.phonemes == info.phonemes,
{
    PhonemeMap { name: info.name, phonemes: info.phonemes }
}

} // verus!
