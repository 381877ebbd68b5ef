[package]
name = "babybear_ntt"
version = "0.1.0"
edition = "2021"
publish = false

[dependencies]
p3-air = "=0.1.0"
p3-baby-bear = "=0.1.0"
p3-blake3 = "=0.1.0"
p3-bn254-fr = "=0.1.0"
p3-field = "=0.1.0"
p3-goldilocks = "=0.1.0"
p3-koala-bear = "=0.1.0"
p3-matrix = "=0.1.0"
p3-mds = "=0.1.0"
p3-mersenne-31 = "=0.1.0"
p3-poseidon = "=0.1.0"
p3-poseidon2 = "=0.1.0"
p3-rescue = "=0.1.0"
p3-symmetric = "=0.1.0"
rand = "=0.8.5"
tiny-keccak = { version = "=2.0.2", features = ["keccak"] }
