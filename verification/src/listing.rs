//! Which recordings a folder shows, and in which order.
use vstd::prelude::*;
use crate::recording::{
    audio_path, is_listed, last_part, last_range, listed, path_stem, path_suffix, placed, sort_key, text_le, video_path,
};
use crate::text::{lemma_is_last_of, lowered, only};

verus! {

/// A text comes before those that it starts, and before those that have a later character where
/// the two first differ.
pub proof fn law_texts_are_in_order(a: Seq<char>, b: Seq<char>, i: int)
    requires
        0 <= i <= a.len(),
        i <= b.len(),
        a.take(i) == b.take(i),
    ensures
        i == a.len() ==> text_le(a, b),
        i < a.len() && i == b.len() ==> !text_le(a, b),
        i < a.len() && i < b.len() && a[i] != b[i] ==> (text_le(a, b) <==> a[i] < b[i]),
    decreases i,
{
    if i > 0 {
        assert(a.take(i)[0] == a[0] && b.take(i)[0] == b[0]);
        assert(a.skip(1).take(i - 1) =~= a.take(i).skip(1));
        assert(b.skip(1).take(i - 1) =~= b.take(i).skip(1));
        law_texts_are_in_order(a.skip(1), b.skip(1), i - 1);
    }
}

proof fn lemma_total(a: Seq<char>, b: Seq<char>)
    ensures
        text_le(a, b) || text_le(b, a),
    decreases a.len(),
{
    if a.len() > 0 && b.len() > 0 && a[0] == b[0] {
        lemma_total(a.skip(1), b.skip(1));
    }
}

proof fn lemma_transitive(a: Seq<char>, b: Seq<char>, c: Seq<char>)
    requires
        text_le(a, b),
        text_le(b, c),
    ensures
        text_le(a, c),
    decreases a.len(),
{
    if a.len() > 0 && b.len() > 0 && c.len() > 0 && a[0] == b[0] && b[0] == c[0] {
        lemma_transitive(a.skip(1), b.skip(1), c.skip(1));
    }
}

spec fn in_order(list: Seq<Seq<char>>) -> bool {
    forall|i: int, j: int| #![trigger list[i], list[j]]
        0 <= i <= j < list.len() ==> text_le(sort_key(list[i]), sort_key(list[j]))
}

proof fn lemma_placed(list: Seq<Seq<char>>, p: Seq<char>)
    requires
        in_order(list),
    ensures
        in_order(placed(list, p)),
        placed(list, p).to_multiset() == list.to_multiset().insert(p),
    decreases list.len(),
{
    broadcast use vstd::seq_lib::group_to_multiset_ensures;

    let r = placed(list, p);
    lemma_total(sort_key(p), sort_key(p));
    if list.len() > 0 && !text_le(sort_key(list.last()), sort_key(p)) {
        let t = list.drop_last();
        let last = list.last();
        assert forall|i: int, j: int| #![trigger t[i], t[j]] 0 <= i <= j < t.len() implies text_le(
            sort_key(t[i]),
            sort_key(t[j]),
        ) by {
            assert(t[i] == list[i] && t[j] == list[j]);
        }
        lemma_placed(t, p);
        lemma_total(sort_key(last), sort_key(p));
        lemma_total(sort_key(last), sort_key(last));
        assert(list =~= t.push(last));
        assert(r.to_multiset() =~= list.to_multiset().insert(p));
        let before = placed(t, p);
        assert forall|i: int, j: int| #![trigger r[i], r[j]] 0 <= i <= j < r.len() implies text_le(
            sort_key(r[i]),
            sort_key(r[j]),
        ) by {
            if j < before.len() {
                assert(r[i] == before[i] && r[j] == before[j]);
            } else if i < before.len() {
                assert(r[i] == before[i]);
                assert(before.to_multiset().count(before[i]) > 0) by {
                    assert(before.contains(before[i]));
                }
                if before[i] != p {
                    assert(t.to_multiset().count(before[i]) > 0);
                    assert(t.contains(before[i]));
                    let k = choose|k: int| 0 <= k < t.len() && t[k] == before[i];
                    assert(list[k] == before[i] && list[list.len() - 1] == last);
                }
            }
        }
    } else {
        assert forall|i: int, j: int| #![trigger r[i], r[j]] 0 <= i <= j < r.len() implies text_le(
            sort_key(r[i]),
            sort_key(r[j]),
        ) by {
            if j < list.len() {
                assert(r[i] == list[i] && r[j] == list[j]);
            } else if i < list.len() {
                assert(r[i] == list[i]);
                assert(list[list.len() - 1] == list.last());
                lemma_transitive(sort_key(list[i]), sort_key(list.last()), sort_key(p));
            }
        }
    }
}

proof fn lemma_listed(paths: Seq<Seq<char>>)
    ensures
        in_order(listed(paths)),
        listed(paths).to_multiset() == paths.filter(|p: Seq<char>| is_listed(p)).to_multiset(),
    decreases paths.len(),
{
    broadcast use vstd::seq_lib::group_to_multiset_ensures;

    reveal(Seq::filter);
    let keep = |p: Seq<char>| is_listed(p);
    if paths.len() > 0 {
        let t = paths.drop_last();
        lemma_listed(t);
        if is_listed(paths.last()) {
            lemma_placed(listed(t), paths.last());
            assert(paths.filter(keep) =~= t.filter(keep).push(paths.last()));
        }
    } else {
        assert(listed(paths) =~= paths.filter(keep));
    }
}

/// The recordings of a folder are those of its files that can be opened, each as often as it was
/// found, in the order of their names, whatever the case of the letters.
pub proof fn law_recordings_are_listed_by_name(paths: Seq<Seq<char>>, i: int, j: int)
    requires
        0 <= i <= j < listed(paths).len(),
    ensures
        text_le(sort_key(listed(paths)[i]), sort_key(listed(paths)[j])),
        listed(paths).to_multiset() == paths.filter(|p: Seq<char>| is_listed(p)).to_multiset(),
{
    lemma_listed(paths);
}

/// The name of a file is what follows the last slash of its path.
pub proof fn law_names_follow_the_last_slash(dir: Seq<char>, name: Seq<char>)
    requires
        dir.len() > 0 ==> dir.last() == '/',
        name.len() > 0,
        !name.contains('/'),
        name != seq!['.'],
        name != seq!['.', '.'],
    ensures
        last_part(dir + name) == Some(name),
        last_range(dir + name) == Some((dir.len() as int, (dir.len() + name.len()) as int)),
{
    let p = dir + name;
    let i = dir.len() - 1;
    assert forall|k: int| i < k < p.len() implies !only('/')(#[trigger] p[k]) by {
        assert(p[k] == name[k - dir.len()]);
    }
    if i >= 0 {
        assert(p[i] == dir[i] && dir[i] == dir.last());
    }
    lemma_is_last_of(p, only('/'), i);
    assert(p.skip(i + 1) =~= name);
    assert(p.subrange(dir.len() as int, p.len() as int) =~= name);
}

/// Files are told apart by their extension, whatever its case: `mp3` and `wav` are sound, `mp4`,
/// `m4v` and `mov` are pictures with sound, and nothing else is opened. Neither are the shadows
/// that some systems leave beside a file, whose names start with `._`.
pub proof fn law_files_are_told_by_their_extension(p: Seq<char>, stem: Seq<char>, ext: Seq<char>)
    requires
        last_part(p) == Some(stem.push('.') + ext),
        stem.len() > 0,
        !ext.contains('.'),
    ensures
        path_suffix(p) == Some(ext),
        path_stem(p) == Some(stem),
        audio_path(p) <==> lowered(ext) == seq!['m', 'p', '3'] || lowered(ext) == seq!['w', 'a', 'v'],
        video_path(p) <==> lowered(ext) == seq!['m', 'p', '4'] || lowered(ext) == seq!['m', '4', 'v'] || lowered(ext)
            == seq!['m', 'o', 'v'],
        !(stem.len() > 1 && stem[0] == '.' && stem[1] == '_') ==> (is_listed(p) <==> audio_path(p) || video_path(p)),
        stem.len() > 1 && stem[0] == '.' && stem[1] == '_' ==> !is_listed(p),
{
    let name = stem.push('.') + ext;
    assert forall|k: int| stem.len() < k < name.len() implies !only('.')(#[trigger] name[k]) by {
        assert(name[k] == ext[k - stem.len() - 1]);
    }
    assert(name[stem.len() as int] == '.');
    lemma_is_last_of(name, only('.'), stem.len() as int);
    assert(name.skip(stem.len() as int + 1) =~= ext);
    assert(name.take(stem.len() as int) =~= stem);
    reveal_strlit("mp3");
    reveal_strlit("wav");
    reveal_strlit("mp4");
    reveal_strlit("m4v");
    reveal_strlit("mov");
    reveal_strlit("._");
    assert("mp3"@ =~= seq!['m', 'p', '3']);
    assert("wav"@ =~= seq!['w', 'a', 'v']);
    assert("mp4"@ =~= seq!['m', 'p', '4']);
    assert("m4v"@ =~= seq!['m', '4', 'v']);
    assert("mov"@ =~= seq!['m', 'o', 'v']);
    assert("._"@ =~= seq!['.', '_']);
    if stem.len() > 1 {
        assert(name[0] == stem[0] && name[1] == stem[1]);
        if stem[0] == '.' && stem[1] == '_' {
            assert("._"@ =~= name.subrange(0, 2));
        } else if "._"@.is_prefix_of(name) {
            assert(name.subrange(0, 2)[0] == '.' && name.subrange(0, 2)[1] == '_');
        }
    } else {
        assert(name[1] == '.');
        if "._"@.is_prefix_of(name) {
            assert(name.subrange(0, 2)[1] == '_');
        }
    }
}

/// Capital letters become the small ones in the same place of the alphabet. All else stays.
pub proof fn law_capitals_become_small(s: Seq<char>, i: int)
    requires
        0 <= i < s.len(),
    ensures
        lowered(s).len() == s.len(),
        'A' <= s[i] <= 'Z' ==> 'a' <= lowered(s)[i] <= 'z' && lowered(s)[i] as int - 'a' as int == s[i] as int - 'A' as int,
        !('A' <= s[i] <= 'Z') ==> lowered(s)[i] == s[i],
{
}

} // verus!
