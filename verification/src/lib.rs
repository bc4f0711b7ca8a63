pub mod arith;
pub mod balanced;
pub mod bigint;
pub mod ciphertext;
pub mod correctness;
pub mod defaults;
pub mod encoding;
pub mod errors;
pub mod evaluation_key;
pub mod key_switching_key;
pub mod minimization;
pub mod multiplication;
pub mod nfl;
pub mod ntt;
pub mod parameters;
pub mod plaintext;
pub mod products;
pub mod proto;
pub mod random;
pub mod ring;
pub mod rns;
pub mod rq;
pub mod scaler;
pub mod secret_key;
pub mod switching;
pub mod transcode;
pub mod zq;
