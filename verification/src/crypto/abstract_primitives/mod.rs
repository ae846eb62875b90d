pub mod vector_commitment;
