use context_smith::embed::{
    batches, blob_to_vec, embed_text, embedding_rows, fuse_seeds, gather_batch, gather_ranks,
    next_step, rrf_fuse, search_limit, search_vectors, stale_embeddings, vec_to_blob,
    vector_candidates, EmbedMode, EmbedVars, RemoteEmbedder, RequestStep, StaleFile,
    EMBED_CHAR_LIMIT, RANK_OFFSET, SEARCH_VECTORS_MAX,
};
use context_smith::embed_run::{EmbedAction, EmbedRun};
use context_smith::score::Score;

fn score(x: f32) -> Score {
    Score::from_bits(x.to_bits()).unwrap()
}

fn bits(v: &[f32]) -> Vec<u32> {
    v.iter().map(|x| x.to_bits()).collect()
}

fn floats(v: &[u32]) -> Vec<f32> {
    v.iter().map(|x| f32::from_bits(*x)).collect()
}

fn scored(list: &[(i64, f32)]) -> Vec<(i64, Score)> {
    list.iter().map(|(id, x)| (*id, score(*x))).collect()
}

fn reciprocal(ranks: &Vec<usize>) -> Score {
    let mut sum = 0.0f64;
    for r in ranks {
        sum += 1.0 / (RANK_OFFSET as f64 + *r as f64);
    }
    score(sum as f32)
}

fn cosine(a: &[f32], b: &[f32]) -> f32 {
    let dot: f32 = a.iter().zip(b).map(|(x, y)| x * y).sum();
    let na = a.iter().map(|x| x * x).sum::<f32>().sqrt();
    let nb = b.iter().map(|x| x * x).sum::<f32>().sqrt();
    if na == 0.0 || nb == 0.0 {
        0.0
    } else {
        dot / (na * nb)
    }
}

#[test]
fn blob_roundtrip_preserves_vector() {
    let v = vec![1.5f32, -2.0, 0.0, 3.25];
    assert_eq!(floats(&blob_to_vec(&vec_to_blob(&bits(&v)))), v);
}

#[test]
fn blobs_are_little_endian() {
    let v = [1.5f32, -2.0, f32::MIN_POSITIVE];
    let bytes: Vec<u8> = v.iter().flat_map(|x| x.to_le_bytes()).collect();
    assert_eq!(vec_to_blob(&bits(&v)), bytes);
    assert_eq!(blob_to_vec(&bytes), bits(&v));
    assert_eq!(blob_to_vec(&bytes[..7]), bits(&v[..1]));
    assert!(blob_to_vec(&[]).is_empty());
}

#[test]
fn rrf_rewards_agreement_across_lists() {
    let bm25 = scored(&[(1, 5.0), (2, 4.0)]);
    let vec = scored(&[(2, 0.9), (3, 0.8)]);
    let fused = rrf_fuse(&vec![bm25, vec], reciprocal, 10);
    assert_eq!(fused[0].0, 2, "item in both lists should rank first");
    let ids: Vec<i64> = fused.iter().map(|(id, _)| *id).collect();
    assert!(ids.contains(&1) && ids.contains(&3));
}

#[test]
fn fusion_scores_are_sums_of_reciprocals() {
    let fused = rrf_fuse(
        &vec![scored(&[(1, 5.0), (2, 4.0)]), scored(&[(2, 0.9), (3, 0.8)])],
        reciprocal,
        2,
    );
    assert_eq!(fused.len(), 2);
    assert_eq!(fused[0], (2, score((1.0f64 / 62.0 + 1.0 / 61.0) as f32)));
    assert_eq!(fused[1], (1, score((1.0f64 / 61.0) as f32)));
}

#[test]
fn search_vectors_ranks_by_cosine() {
    let query = [1.0f32, 0.1];
    let rows = [(1i64, vec_to_blob(&bits(&[1.0, 0.0]))), (2, vec_to_blob(&bits(&[0.0, 1.0])))];
    let similar: Vec<(i64, Score)> = rows
        .iter()
        .map(|(id, blob)| (*id, score(cosine(&query, &floats(&blob_to_vec(blob))))))
        .collect();
    let hits = search_vectors(&similar, 10);
    assert_eq!(hits[0].0, 1, "closest vector should rank first");
}

#[test]
fn vector_searches_are_limited() {
    let many: Vec<(i64, Score)> = (0..4000).map(|i| (i, score(i as f32))).collect();
    let hits = search_vectors(&many, 10_000);
    assert_eq!(hits.len(), SEARCH_VECTORS_MAX);
    assert_eq!(hits[0].0, 3999);
    assert_eq!(search_vectors(&many, 2).len(), 2);
    assert_eq!(search_limit(usize::MAX), 3000);
    assert_eq!(vector_candidates(20), 60);
    assert_eq!(vector_candidates(usize::MAX), usize::MAX);
}

#[test]
fn fuse_seeds_returns_bm25_when_no_embeddings() {
    let bm25 = scored(&[(7, 1.0)]);
    let out = fuse_seeds(bm25.clone(), None, reciprocal, 10);
    assert_eq!(out, bm25, "no embeddings → BM25 seeds unchanged");
}

#[test]
fn semantic_seeds_rescue_an_empty_search() {
    let out = fuse_seeds(vec![], Some(scored(&[(3, 0.5), (4, 0.4)])), reciprocal, 10);
    let ids: Vec<i64> = out.iter().map(|f| f.0).collect();
    assert_eq!(ids, vec![3, 4]);
    assert_eq!(out[0].1, score((1.0f64 / 61.0) as f32));
}

#[test]
fn ranks_are_gathered_by_file() {
    let lists = vec![scored(&[(1, 2.0), (2, 1.0)]), vec![], scored(&[(2, 3.0), (1, 0.5), (5, 0.1)])];
    assert_eq!(
        gather_ranks(&lists),
        vec![(1, vec![1, 2]), (2, vec![2, 1]), (5, vec![3])]
    );
}

#[test]
fn long_files_are_embedded_in_part() {
    assert_eq!(embed_text("short"), "short");
    let long = "あ".repeat(EMBED_CHAR_LIMIT + 5);
    assert_eq!(embed_text(&long).chars().count(), EMBED_CHAR_LIMIT);
    let exact = "x".repeat(EMBED_CHAR_LIMIT);
    assert_eq!(embed_text(&exact), exact);
}

#[test]
fn batches_cover_all_files() {
    assert!(batches(0).is_empty());
    assert_eq!(batches(64), vec![(0, 64)]);
    assert_eq!(batches(130), vec![(0, 64), (64, 128), (128, 130)]);
}

#[test]
fn rows_pair_files_with_vectors() {
    let shas = vec!["a".to_owned(), "b".to_owned()];
    let rows = embedding_rows(&vec![1, 2], &shas, &vec![bits(&[1.0]), bits(&[2.0])]);
    assert_eq!(rows.len(), 2);
    assert_eq!(rows[1].file_id, 2);
    assert_eq!(rows[1].content_sha, "b");
    assert_eq!(rows[1].vector, 2.0f32.to_le_bytes().to_vec());
    assert_eq!(embedding_rows(&vec![1, 2], &shas, &vec![bits(&[1.0])]).len(), 1);
}

#[test]
fn modes_have_names() {
    assert_eq!(EmbedMode::Index.as_str(), "index");
    assert_eq!(EmbedMode::Search.as_str(), "search");
}

fn vars(url: Option<&str>, timeout: Option<&str>) -> EmbedVars {
    EmbedVars {
        url: url.map(str::to_owned),
        api_key: Some("key".to_owned()),
        collection: None,
        timeout: timeout.map(str::to_owned),
    }
}

#[test]
fn the_environment_names_the_service() {
    assert!(RemoteEmbedder::from_env(vars(None, None)).is_none());
    let e = RemoteEmbedder::from_env(vars(Some("http://host:1//"), None)).unwrap();
    assert_eq!(e.endpoint(), "http://host:1/embed/batch");
    assert_eq!(e.api_key(), &Some("key".to_owned()));
    assert_eq!(e.collection(), "context-smith");
    assert_eq!(e.timeout_secs(), 30);
    let mut named = vars(Some("u"), Some("7"));
    named.collection = Some("mine".to_owned());
    let e = RemoteEmbedder::from_env(named).unwrap();
    assert_eq!(e.collection(), "mine");
    assert_eq!(e.timeout_secs(), 7);
}

#[test]
fn timeouts_are_whole_numbers() {
    let secs = |t: &str| -> u64 {
        RemoteEmbedder::from_env(vars(Some("u"), Some(t)))
            .unwrap()
            .timeout_secs()
    };
    for t in ["0", "+12", "18446744073709551615", "18446744073709551616", "", "+", "-1", " 5", "1x"] {
        assert_eq!(secs(t), t.parse::<u64>().unwrap_or(30), "timeout {t:?}");
    }
}

#[test]
fn failed_requests_are_sent_again() {
    assert_eq!(next_step(0, Some(3), 3), RequestStep::Take);
    assert_eq!(next_step(0, Some(2), 3), RequestStep::Refuse);
    assert_eq!(next_step(0, None, 3), RequestStep::Retry(1));
    assert_eq!(next_step(1, None, 3), RequestStep::Retry(2));
    assert_eq!(next_step(2, None, 3), RequestStep::GiveUp);
    assert_eq!(next_step(u32::MAX, None, 3), RequestStep::GiveUp);
}

#[test]
fn batches_leave_unreadable_files_out() {
    let file = |id: i64| StaleFile {
        file_id: id,
        path: format!("{id}.rs"),
        blob_sha: format!("sha{id}"),
    };
    let contents = vec![Some("one".to_owned()), None, Some("x".repeat(9000))];
    let batch = gather_batch(&vec![file(1), file(2), file(3)], &contents);
    assert_eq!(batch.ids, vec![1, 3]);
    assert_eq!(batch.shas, vec!["sha1", "sha3"]);
    assert_eq!(batch.texts[0], "one");
    assert_eq!(batch.texts[1].len(), EMBED_CHAR_LIMIT);
}

#[test]
fn fused_files_are_distinct_and_best_first() {
    let lists = vec![
        scored(&[(1, 1.0), (2, 1.0), (1, 1.0)]),
        scored(&[(3, 1.0), (2, 1.0)]),
        scored(&[(4, 1.0)]),
    ];
    let fused = rrf_fuse(&lists, reciprocal, 3);
    let ids: Vec<i64> = fused.iter().map(|f| f.0).collect();
    assert_eq!(ids, vec![1, 2, 3]);
    assert!(fused.windows(2).all(|w| !w[1].1.above(w[0].1)));
}

/// Files of an index: path, hash of the content, and hash of what was embedded.
type Embedded = Vec<(&'static str, &'static str, Option<String>)>;

/// Embeds the files that need it, and returns their number.
fn populate_embeddings(index: &mut Embedded) -> usize {
    let rows: Vec<(StaleFile, Option<String>)> = index
        .iter()
        .enumerate()
        .map(|(i, (path, sha, embedded))| {
            let file = StaleFile {
                file_id: i as i64,
                path: (*path).to_owned(),
                blob_sha: (*sha).to_owned(),
            };
            (file, embedded.clone())
        })
        .collect();
    let stale = stale_embeddings(&rows);
    let contents: Vec<Option<String>> = stale
        .iter()
        .map(|f| match f.path.as_str() {
            "a.rs" => Some("fn a() {}".to_owned()),
            "b.rs" => Some("fn bb() {}".to_owned()),
            _ => None,
        })
        .collect();
    let batch = gather_batch(&stale, &contents);
    let vectors: Vec<Vec<u32>> = batch
        .texts
        .iter()
        .map(|t| {
            if t.len() % 2 == 0 {
                bits(&[1.0, 0.0, 0.0])
            } else {
                bits(&[0.0, 1.0, 0.0])
            }
        })
        .collect();
    for row in embedding_rows(&batch.ids, &batch.shas, &vectors) {
        index[row.file_id as usize].2 = Some(row.content_sha);
    }
    batch.ids.len()
}

#[test]
fn populate_embeddings_skips_unchanged_files() {
    let mut index: Embedded = vec![("a.rs", "sha-a", None), ("b.rs", "sha-b", None)];
    let n = populate_embeddings(&mut index);
    assert_eq!(n, 2, "both files should be embedded on first run");
    let n2 = populate_embeddings(&mut index);
    assert_eq!(n2, 0, "no files re-embedded when sha is unchanged");
    index[0].1 = "sha-a-v2";
    let n3 = populate_embeddings(&mut index);
    assert_eq!(n3, 1, "only the changed file should be re-embedded");
}

#[test]
fn answers_come_out_in_the_order_of_the_texts() {
    let vector = |i: usize| vec![i as u32];
    let mut run = EmbedRun::start(130);
    let mut action = run.first();
    let mut sent = Vec::new();
    let mut fail = true;
    while let EmbedAction::Send(secs, from, to) = action {
        sent.push((secs, from, to));
        // The second batch fails at first.
        action = if from == 64 && fail {
            fail = false;
            run.step(None)
        } else {
            run.step(Some((from..to).map(vector).collect()))
        };
    }
    assert_eq!(action, EmbedAction::Finish);
    assert_eq!(sent, vec![(0, 0, 64), (0, 64, 128), (1, 64, 128), (0, 128, 130)]);
    let all: Vec<Vec<u32>> = (0..130).map(vector).collect();
    assert_eq!(run.finish(), all);
}

#[test]
fn requests_end() {
    assert_eq!(EmbedRun::start(0).first(), EmbedAction::Finish);

    let mut run = EmbedRun::start(2);
    assert_eq!(run.first(), EmbedAction::Send(0, 0, 2));
    assert_eq!(run.step(None), EmbedAction::Send(1, 0, 2));
    assert_eq!(run.step(None), EmbedAction::Send(2, 0, 2));
    assert_eq!(run.step(None), EmbedAction::GiveUp);

    let mut run = EmbedRun::start(2);
    assert_eq!(run.step(Some(vec![vec![1]])), EmbedAction::Refuse(1, 2));
}
