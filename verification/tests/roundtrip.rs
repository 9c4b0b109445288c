use grafpe::crypt::Grafpe;
use grafpe::graph::srw::{DirectedSrw, UndirectedSrw};
use grafpe::graph::{is_valid, ConstructionMethod, Graph, ValidGraph};
use grafpe::irs::Irs;
use grafpe::perm::inverse;
use grafpe::prng::{CipherKind, Prng};

fn build_cipher(n: usize, walk_length: usize) -> Grafpe<UndirectedSrw> {
    let key = hex::decode("01230123012301230123012301230123").unwrap();
    let iv = hex::decode("00001111222233330000111122223333").unwrap();

    let mut irs = Irs::new(Prng::from_cipher(CipherKind::Ctr, &key, &iv));
    let graph = ValidGraph::new(ConstructionMethod::Naive, n, 4, &mut irs).unwrap();

    Grafpe::new(UndirectedSrw::new(&graph), &key, walk_length)
}

#[test]
fn crypt_test_encrypt_decrypt() {
    let grafpe = build_cipher(256, 60);

    let plaintext = "Hello, world!";
    let plaintext: Vec<u32> = plaintext.as_bytes().iter().map(|c| *c as u32).collect();
    let cipher = grafpe.encrypt(&plaintext, &[]);
    let decrypted = grafpe.decrypt(&cipher, &[]);
    let decrypted = String::from_utf8(decrypted.into_iter().map(|c| c as u8).collect()).unwrap();

    assert_eq!("Hello, world!", decrypted);
}

#[test]
fn encrypt_changes_the_message() {
    let grafpe = build_cipher(256, 60);
    let plaintext: Vec<u32> = (0..13).collect();
    let cipher = grafpe.encrypt(&plaintext, &[]);
    assert_ne!(plaintext, cipher);
}

#[test]
fn empty_message_stays_empty() {
    let grafpe = build_cipher(256, 60);
    assert_eq!(grafpe.encrypt(&[], &[]), Vec::<u32>::new());
    assert_eq!(grafpe.decrypt(&[], &[]), Vec::<u32>::new());
    assert_eq!(grafpe.encrypt(&[], b"tweak"), Vec::<u32>::new());
    assert_eq!(grafpe.decrypt(&[], b"tweak"), Vec::<u32>::new());
}

#[test]
fn roundtrip_with_tweak() {
    let grafpe = build_cipher(256, 60);
    let plaintext: Vec<u32> = vec![0, 255, 17, 17, 3];
    let cipher = grafpe.encrypt(&plaintext, b"position-7");
    assert_eq!(plaintext, grafpe.decrypt(&cipher, b"position-7"));
}

#[test]
fn encryption_is_deterministic() {
    let a = build_cipher(256, 60);
    let b = build_cipher(256, 60);
    let plaintext: Vec<u32> = vec![9, 8, 7, 6, 5];
    assert_eq!(a.encrypt(&plaintext, b"t"), b.encrypt(&plaintext, b"t"));
}

#[test]
fn roundtrip_directed_walker() {
    let key = hex::decode("01230123012301230123012301230123").unwrap();
    let iv = hex::decode("00001111222233330000111122223333").unwrap();

    let mut irs = Irs::new(Prng::from_cipher(CipherKind::Ctr, &key, &iv));
    let graph = ValidGraph::new(ConstructionMethod::Naive, 100, 4, &mut irs).unwrap();

    let grafpe = Grafpe::new(DirectedSrw::new(&graph), &key, 64);
    let plaintext: Vec<u32> = vec![1, 2, 3, 4, 5, 6, 7, 8, 9];
    let cipher = grafpe.encrypt(&plaintext, &[]);
    assert_eq!(plaintext, grafpe.decrypt(&cipher, &[]));
}

#[test]
fn tree_policy_builds_valid_graphs() {
    let key = hex::decode("01230123012301230123012301230123").unwrap();
    let iv = hex::decode("00001111222233330000111122223333").unwrap();

    let mut irs = Irs::new(Prng::from_cipher(CipherKind::Ctr, &key, &iv));
    let graph = ValidGraph::new(ConstructionMethod::Tree, 64, 8, &mut irs).unwrap();
    assert_eq!(graph.size(), 64);
    assert_eq!(graph.degree(), 8);
    assert!(is_valid(&graph));

    let grafpe = Grafpe::new(UndirectedSrw::new(&graph), &key, 40);
    let plaintext: Vec<u32> = vec![63, 0, 1, 62];
    let cipher = grafpe.encrypt(&plaintext, &[]);
    assert_eq!(plaintext, grafpe.decrypt(&cipher, &[]));
}

#[test]
fn small_fixed_graph_is_accepted() {
    let perm_a: Vec<u64> = vec![7, 0, 6, 1, 5, 3, 4, 2];
    let perm_b: Vec<u64> = vec![5, 6, 1, 4, 7, 2, 0, 3];
    let pa_inv = inverse(&perm_a);
    let pb_inv = inverse(&perm_b);
    let permutations = vec![perm_a, perm_b, pa_inv, pb_inv];
    let graph = ValidGraph::from_permutations(8, 4, permutations);
    assert!(is_valid(&graph));

    let key = hex::decode("01230123012301230123012301230123").unwrap();
    let grafpe = Grafpe::new(UndirectedSrw::new(&graph), &key, 16);
    let plaintext: Vec<u32> = vec![0, 1, 2, 3, 4, 5, 6, 7];
    let cipher = grafpe.encrypt(&plaintext, &[]);
    assert_eq!(plaintext, grafpe.decrypt(&cipher, &[]));
}

#[test]
fn graph_accessors_split_halves() {
    let key = hex::decode("01230123012301230123012301230123").unwrap();
    let iv = hex::decode("00001111222233330000111122223333").unwrap();

    let mut irs = Irs::new(Prng::from_cipher(CipherKind::Ctr, &key, &iv));
    let graph = ValidGraph::new(ConstructionMethod::Naive, 16, 4, &mut irs).unwrap();

    let all = graph.permutations().clone();
    let fwd = graph.forward_permutations();
    let bwd = graph.backward_permutations();
    assert_eq!(all.len(), 4);
    assert_eq!(fwd, all[..2].to_vec());
    assert_eq!(bwd, all[2..].to_vec());
    for i in 0..2 {
        assert_eq!(bwd[i], inverse(&fwd[i]));
    }
}
