pub mod shared_path_serializer;
