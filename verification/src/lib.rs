pub mod blocking;
pub mod bounded_channel;
pub mod circular_buffer;
pub mod count_down;
pub mod forgettable;
pub mod game;
pub mod latch;
pub mod lru_cache;
pub mod multi_channel;
pub mod primes;
pub mod ranking_barrier;
pub mod readings;
pub mod subscription;
pub mod token_manager;
