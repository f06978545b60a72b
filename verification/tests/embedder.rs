use ragamuffin::embedder::FastEmbedder;
use ragamuffin::error::{EmbedError, RagError};
use ragamuffin::rag::first_vector;

#[test]
fn dimension_comes_from_the_probe() {
    let e = FastEmbedder::new(&[384]).unwrap();
    assert_eq!(e.dim(), 384);
    match FastEmbedder::new(&[]) {
        Err(EmbedError::Model(m)) => assert_eq!(m, "embedding probe produced no vector"),
        other => panic!("unexpected {other:?}"),
    }
}

#[test]
fn first_vector_or_empty_embedding() {
    assert_eq!(first_vector(vec![vec![1, 2], vec![3]]).unwrap(), vec![1, 2]);
    assert!(matches!(first_vector(vec![]), Err(RagError::EmptyEmbedding)));
}
